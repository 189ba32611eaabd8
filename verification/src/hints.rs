use vstd::prelude::*;

use crate::ar_type::{ArType, TyView};
use crate::primitive::{spec_is_numeric, Primitive};
use crate::ar_type::{spec_ty_is_float, spec_ty_is_numeric};
use crate::symbol_table::SymbolTable;
use crate::type_display::{display_ty, ty_ids_below};

verus! {

/// The hint given when a condition of type `t` is not `bool`.
pub open spec fn spec_bool_conversion_hint(t: TyView) -> Seq<char> {
    match t {
        TyView::Primitive(p) => if spec_is_numeric(p) {
            "use explicit comparison: 'value != 0'"@
        } else if p == Primitive::Str {
            "strings are not automatically bool — use explicit comparison"@
        } else {
            "type is not convertible to bool"@
        },
        TyView::Nullable(_) => "use explicit comparison: 'value != nil'"@,
        _ => "type is not convertible to bool"@,
    }
}

/// Suggests how to turn a value of type `ty` into a `bool`.
pub fn suggest_bool_conversion(ty: &ArType) -> (r: String)
    ensures
        r@ == spec_bool_conversion_hint(ty@),
{
    match ty {
        ArType::Primitive(p) => {
            if p.is_numeric() {
                "use explicit comparison: 'value != 0'".to_owned()
            } else if p.same(Primitive::Str) {
                "strings are not automatically bool — use explicit comparison".to_owned()
            } else {
                "type is not convertible to bool".to_owned()
            }
        },
        ArType::Nullable(_) => "use explicit comparison: 'value != nil'".to_owned(),
        _ => "type is not convertible to bool".to_owned(),
    }
}

/// Whether `ty` is the primitive `str`.
pub fn is_string_type(ty: &ArType) -> (r: bool)
    ensures
        r == (ty@ == TyView::Primitive(Primitive::Str)),
{
    match ty {
        ArType::Primitive(Primitive::Str) => true,
        _ => false,
    }
}

/// The hint added to an operator type mismatch between `left` and `right`:
/// string interpolation where a `str` is involved, an explicit cast to the
/// floating side (else to `right`) between two numeric types, none
/// otherwise.
pub open spec fn spec_operator_hint(
    left: TyView,
    right: TyView,
    syms: Seq<crate::symbol_table::Symbol>,
) -> Option<Seq<char>> {
    if left == TyView::Primitive(Primitive::Str) || right == TyView::Primitive(Primitive::Str) {
        Some("to concatenate with string, use interpolation: \"${value}\""@)
    } else if spec_ty_is_numeric(left) && spec_ty_is_numeric(right) {
        Some("convert explicitly: 'value as "@ + display_ty(
            if spec_ty_is_float(left) {
                left
            } else {
                right
            },
            syms,
        ) + "'"@)
    } else {
        None
    }
}

/// The hint for an operator applied to operands of types `left` and
/// `right`, if there is one; see `spec_operator_hint`.
pub fn operator_hint(left: &ArType, right: &ArType, symbols: &SymbolTable) -> (r: Option<String>)
    requires
        ty_ids_below(left@, symbols.symbol_seq().len()),
        ty_ids_below(right@, symbols.symbol_seq().len()),
    ensures
        r matches Some(s) ==> spec_operator_hint(left@, right@, symbols.symbol_seq()) == Some(s@),
        r is None ==> spec_operator_hint(left@, right@, symbols.symbol_seq()) is None,
{
    let left_str = left.display(symbols);
    let right_str = right.display(symbols);
    if is_string_type(left) || is_string_type(right) {
        return Some(String::from_str("to concatenate with string, use interpolation: \"${value}\""));
    }
    if left.is_numeric() && right.is_numeric() {
        let mut hint = String::from_str("convert explicitly: 'value as ");
        if left.is_float() {
            hint.append(left_str.as_str());
        } else {
            hint.append(right_str.as_str());
        }
        hint.append("'");
        return Some(hint);
    }
    None
}

} // verus!
