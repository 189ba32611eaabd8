use vstd::prelude::*;

use crate::constraints::{Constraint, ConstraintOrigin};
use crate::diagnostics::{diag_error, diag_hint, diag_label, diag_note, DiagCode, DiagView, Diagnostic};
use crate::hints::{operator_hint, spec_bool_conversion_hint, spec_operator_hint, suggest_bool_conversion};
use crate::ids::Span;
use crate::symbol_table::{Symbol, SymbolTable};
use crate::type_display::{append_decimal, decimal, display_ty, ty_ids_below};

verus! {

/// A span as debug output writes it.
pub open spec fn span_text(s: Span) -> Seq<char> {
    "Span { start: "@ + decimal(s.start as nat) + ", end: "@ + decimal(s.end as nat) + " }"@
}

/// The constraint can be reported: its types name only symbols of the
/// table, and its argument and arm positions can be counted from one.
pub open spec fn constraint_ok(c: Constraint, syms: Seq<Symbol>) -> bool {
    &&& ty_ids_below(c.expected@, syms.len())
    &&& ty_ids_below(c.found@, syms.len())
    &&& match c.origin {
        ConstraintOrigin::CallArg { arg_index, .. } => arg_index < usize::MAX,
        ConstraintOrigin::MatchArms { arm_index, .. } => arm_index < usize::MAX,
        _ => true,
    }
}

/// The diagnostic for an operator applied to operands of types `e` and
/// `f`, before its hint.
pub open spec fn binary_op_diag(e: Seq<char>, f: Seq<char>, op_span: Span, left_span: Span, right_span: Span) -> DiagView {
    diag_label(
        diag_label(
            diag_error(
                DiagCode::T005OperatorNotApplicable,
                "operator not applicable to '"@ + e + "' and '"@ + f + "'"@,
                op_span,
            ),
            left_span,
            "type '"@ + e + "'"@,
        ),
        right_span,
        "type '"@ + f + "'"@,
    )
}

/// The diagnostic reported for a constraint that does not hold: its kind
/// and wording follow where the constraint came from, and show where the
/// expected and the found type came from.
pub open spec fn spec_constraint_diagnostic(c: Constraint, syms: Seq<Symbol>) -> DiagView {
    let e = display_ty(c.expected@, syms);
    let f = display_ty(c.found@, syms);
    match c.origin {
        ConstraintOrigin::Assignment { lhs_span, rhs_span } => diag_hint(
            diag_note(
                diag_label(
                    diag_label(
                        diag_error(
                            DiagCode::T002IncompatibleAssignment,
                            "incompatible type in assignment: expected '"@ + e + "', found '"@ + f
                                + "'"@,
                            rhs_span,
                        ),
                        lhs_span,
                        "type '"@ + e + "' declared here"@,
                    ),
                    rhs_span,
                    "value has type '"@ + f + "'"@,
                ),
                "flow: declaration ("@ + e + ", "@ + span_text(lhs_span) + ") → value ("@ + f + ", "@
                    + span_text(rhs_span) + ")"@,
            ),
            "convert with '"@ + f + " as "@ + e + "' or change the declaration type"@,
        ),
        ConstraintOrigin::CallArg { call_span, param_span, arg_span, arg_index } => {
            let n = decimal(arg_index as nat + 1);
            diag_note(
                diag_label(
                    diag_label(
                        diag_error(
                            DiagCode::T003IncompatibleCallArg,
                            "incompatible type in argument "@ + n + ": expected '"@ + e + "', found '"@
                                + f + "'"@,
                            call_span,
                        ),
                        param_span,
                        "parameter "@ + n + " expects '"@ + e + "'"@,
                    ),
                    arg_span,
                    "argument has type '"@ + f + "'"@,
                ),
                "flow: argument "@ + n + " ("@ + f + ") → parameter ("@ + e + " expected)"@,
            )
        },
        ConstraintOrigin::ReturnType { return_span, declared_span } => diag_hint(
            diag_label(
                diag_label(
                    diag_error(
                        DiagCode::T004IncompatibleReturnType,
                        "incompatible return type: expected '"@ + e + "', found '"@ + f + "'"@,
                        return_span,
                    ),
                    declared_span,
                    "return type '"@ + e + "' declared here"@,
                ),
                return_span,
                "returns '"@ + f + "'"@,
            ),
            "convert the return value with 'as "@ + e + "' or change the function's return type"@,
        ),
        ConstraintOrigin::IfBranches { then_span, else_span } => diag_hint(
            diag_label(
                diag_label(
                    diag_error(
                        DiagCode::T007IfBranchMismatch,
                        "if branches have incompatible types: '"@ + e + "' and '"@ + f + "'"@,
                        else_span,
                    ),
                    then_span,
                    "then branch has type '"@ + e + "'"@,
                ),
                else_span,
                "else branch has type '"@ + f + "'"@,
            ),
            "both branches must have the same type when if is used as an expression"@,
        ),
        ConstraintOrigin::MatchArms { first_span, mismatch_span, arm_index } => {
            let n = decimal(arm_index as nat + 1);
            diag_hint(
                diag_label(
                    diag_label(
                        diag_error(
                            DiagCode::T008MatchArmMismatch,
                            "match arm "@ + n + " has type '"@ + f + "', expected '"@ + e + "'"@,
                            mismatch_span,
                        ),
                        first_span,
                        "first arm has type '"@ + e + "'"@,
                    ),
                    mismatch_span,
                    "arm "@ + n + " has type '"@ + f + "'"@,
                ),
                "all match arms must have the same type"@,
            )
        },
        ConstraintOrigin::BinaryOp { op_span, left_span, right_span } => {
            let d = binary_op_diag(e, f, op_span, left_span, right_span);
            match spec_operator_hint(c.expected@, c.found@, syms) {
                Some(h) => diag_hint(d, h),
                None => d,
            }
        },
        ConstraintOrigin::UnaryOp { op_span, operand_span } => diag_label(
            diag_error(
                DiagCode::T005OperatorNotApplicable,
                "operator not applicable to '"@ + f + "'"@,
                op_span,
            ),
            operand_span,
            "type '"@ + f + "'"@,
        ),
        ConstraintOrigin::Condition { span } => diag_hint(
            diag_label(
                diag_error(
                    DiagCode::T009ConditionNotBool,
                    "condition must be 'bool', found '"@ + f + "'"@,
                    span,
                ),
                span,
                "type '"@ + f + "' is not bool"@,
            ),
            spec_bool_conversion_hint(c.found@),
        ),
        ConstraintOrigin::FieldInit { struct_span, field_name, field_span, value_span } => diag_label(
            diag_label(
                diag_error(
                    DiagCode::T002IncompatibleAssignment,
                    "incompatible type for field '"@ + field_name@ + "': expected '"@ + e
                        + "', found '"@ + f + "'"@,
                    value_span,
                ),
                field_span,
                "field '"@ + field_name@ + "' has type '"@ + e + "'"@,
            ),
            value_span,
            "value has type '"@ + f + "'"@,
        ),
        ConstraintOrigin::SetTarget { place_span, value_span } => diag_label(
            diag_label(
                diag_error(
                    DiagCode::T002IncompatibleAssignment,
                    "incompatible type in set: expected '"@ + e + "', found '"@ + f + "'"@,
                    value_span,
                ),
                place_span,
                "place has type '"@ + e + "'"@,
            ),
            value_span,
            "value has type '"@ + f + "'"@,
        ),
        ConstraintOrigin::CastExpr { expr_span, target_span } => diag_label(
            diag_label(
                diag_error(
                    DiagCode::T010InvalidCast,
                    "invalid cast from '"@ + f + "' to '"@ + e + "'"@,
                    target_span,
                ),
                expr_span,
                "expression has type '"@ + f + "'"@,
            ),
            target_span,
            "cast to '"@ + e + "' is not possible"@,
        ),
        ConstraintOrigin::ImplicitWidening { source_span, target_span } => diag_hint(
            diag_label(
                diag_label(
                    diag_error(
                        DiagCode::T015ImplicitWidening,
                        "implicit widening from '"@ + f + "' to '"@ + e + "' is not allowed"@,
                        source_span,
                    ),
                    source_span,
                    "type '"@ + f + "' here"@,
                ),
                target_span,
                "expected '"@ + e + "'"@,
            ),
            "use explicit conversion: 'value as "@ + e + "'"@,
        ),
        ConstraintOrigin::TryInvalid { span } => diag_hint(
            diag_label(
                diag_error(
                    DiagCode::T016TryInvalid,
                    "the '?' operator can only be applied to a Result tuple, found '"@ + f + "'"@,
                    span,
                ),
                span,
                "this has type '"@ + f + "'"@,
            ),
            "ensure the expression returns a tuple where the second element is an error type"@,
        ),
        ConstraintOrigin::InvalidIndex { base_span, index_span, is_base_error } => if is_base_error {
            diag_label(
                diag_error(
                    DiagCode::T017InvalidIndex,
                    "type '"@ + e + "' cannot be indexed"@,
                    base_span,
                ),
                base_span,
                "this has type '"@ + e + "', expected array or slice"@,
            )
        } else {
            diag_label(
                diag_error(
                    DiagCode::T017InvalidIndex,
                    "index must be of type 'int', found '"@ + f + "'"@,
                    index_span,
                ),
                index_span,
                "this has type '"@ + f + "'"@,
            )
        },
        ConstraintOrigin::UndefinedField { base_span, field_span, field_name } => diag_label(
            diag_label(
                diag_error(
                    DiagCode::T018UndefinedField,
                    "no field '"@ + field_name@ + "' on type '"@ + e + "'"@,
                    field_span,
                ),
                base_span,
                "this has type '"@ + e + "'"@,
            ),
            field_span,
            "unknown field"@,
        ),
    }
}

/// `a`, `b` and `c` one after the other.
fn cat3(a: &str, b: &str, c: &str) -> (r: String)
    ensures
        r@ == a@ + b@ + c@,
{
    let mut r = String::from_str(a);
    r.append(b);
    r.append(c);
    r
}

/// `a` to `e` one after the other.
fn cat5(a: &str, b: &str, c: &str, d: &str, e: &str) -> (r: String)
    ensures
        r@ == a@ + b@ + c@ + d@ + e@,
{
    let mut r = cat3(a, b, c);
    r.append(d);
    r.append(e);
    r
}

/// `a` to `g` one after the other.
fn cat7(a: &str, b: &str, c: &str, d: &str, e: &str, f: &str, g: &str) -> (r: String)
    ensures
        r@ == a@ + b@ + c@ + d@ + e@ + f@ + g@,
{
    let mut r = cat5(a, b, c, d, e);
    r.append(f);
    r.append(g);
    r
}

/// `n` in decimal.
fn decimal_string(n: usize) -> (r: String)
    ensures
        r@ == decimal(n as nat),
{
    let mut r = String::new();
    append_decimal(&mut r, n as u64);
    assert(r@ =~= decimal(n as nat));
    r
}

/// `s` as debug output writes it; see `span_text`.
fn span_string(s: Span) -> (r: String)
    ensures
        r@ == span_text(s),
{
    let a = decimal_string(s.start);
    let b = decimal_string(s.end);
    cat5("Span { start: ", a.as_str(), ", end: ", b.as_str(), " }")
}

/// Turns a constraint that does not hold into the diagnostic reported for
/// it; see `spec_constraint_diagnostic`.
pub fn constraint_to_diagnostic(constraint: &Constraint, symbols: &SymbolTable) -> (d: Diagnostic)
    requires
        constraint_ok(*constraint, symbols.symbol_seq()),
    ensures
        d@ == spec_constraint_diagnostic(*constraint, symbols.symbol_seq()),
{
    let expected_str = constraint.expected.display(symbols);
    let found_str = constraint.found.display(symbols);
    let e = expected_str.as_str();
    let f = found_str.as_str();
    match &constraint.origin {
        ConstraintOrigin::Assignment { lhs_span, rhs_span } => {
            let mut note = cat5("flow: declaration (", e, ", ", span_string(*lhs_span).as_str(), ") → value (");
            note.append(f);
            note.append(", ");
            note.append(span_string(*rhs_span).as_str());
            note.append(")");
            Diagnostic::error(
                DiagCode::T002IncompatibleAssignment,
                cat5("incompatible type in assignment: expected '", e, "', found '", f, "'"),
                *rhs_span,
            ).with_label(*lhs_span, cat3("type '", e, "' declared here")).with_label(
                *rhs_span,
                cat3("value has type '", f, "'"),
            ).with_note(note).with_hint(
                cat5("convert with '", f, " as ", e, "' or change the declaration type"),
            )
        },
        ConstraintOrigin::CallArg { call_span, param_span, arg_span, arg_index } => {
            let n = decimal_string(*arg_index + 1);
            let mut message = cat5("incompatible type in argument ", n.as_str(), ": expected '", e, "', found '");
            message.append(f);
            message.append("'");
            Diagnostic::error(DiagCode::T003IncompatibleCallArg, message, *call_span).with_label(
                *param_span,
                cat5("parameter ", n.as_str(), " expects '", e, "'"),
            ).with_label(*arg_span, cat3("argument has type '", f, "'")).with_note(
                cat7("flow: argument ", n.as_str(), " (", f, ") → parameter (", e, " expected)"),
            )
        },
        ConstraintOrigin::ReturnType { return_span, declared_span } => {
            Diagnostic::error(
                DiagCode::T004IncompatibleReturnType,
                cat5("incompatible return type: expected '", e, "', found '", f, "'"),
                *return_span,
            ).with_label(*declared_span, cat3("return type '", e, "' declared here")).with_label(
                *return_span,
                cat3("returns '", f, "'"),
            ).with_hint(
                cat3(
                    "convert the return value with 'as ",
                    e,
                    "' or change the function's return type",
                ),
            )
        },
        ConstraintOrigin::IfBranches { then_span, else_span } => {
            Diagnostic::error(
                DiagCode::T007IfBranchMismatch,
                cat5("if branches have incompatible types: '", e, "' and '", f, "'"),
                *else_span,
            ).with_label(*then_span, cat3("then branch has type '", e, "'")).with_label(
                *else_span,
                cat3("else branch has type '", f, "'"),
            ).with_hint(
                String::from_str(
                    "both branches must have the same type when if is used as an expression",
                ),
            )
        },
        ConstraintOrigin::MatchArms { first_span, mismatch_span, arm_index } => {
            let n = decimal_string(*arm_index + 1);
            Diagnostic::error(
                DiagCode::T008MatchArmMismatch,
                cat7("match arm ", n.as_str(), " has type '", f, "', expected '", e, "'"),
                *mismatch_span,
            ).with_label(*first_span, cat3("first arm has type '", e, "'")).with_label(
                *mismatch_span,
                cat5("arm ", n.as_str(), " has type '", f, "'"),
            ).with_hint(String::from_str("all match arms must have the same type"))
        },
        ConstraintOrigin::BinaryOp { op_span, left_span, right_span } => {
            let diag = Diagnostic::error(
                DiagCode::T005OperatorNotApplicable,
                cat5("operator not applicable to '", e, "' and '", f, "'"),
                *op_span,
            ).with_label(*left_span, cat3("type '", e, "'")).with_label(
                *right_span,
                cat3("type '", f, "'"),
            );
            match operator_hint(&constraint.expected, &constraint.found, symbols) {
                Some(h) => diag.with_hint(h),
                None => diag,
            }
        },
        ConstraintOrigin::UnaryOp { op_span, operand_span } => {
            Diagnostic::error(
                DiagCode::T005OperatorNotApplicable,
                cat3("operator not applicable to '", f, "'"),
                *op_span,
            ).with_label(*operand_span, cat3("type '", f, "'"))
        },
        ConstraintOrigin::Condition { span } => {
            Diagnostic::error(
                DiagCode::T009ConditionNotBool,
                cat3("condition must be 'bool', found '", f, "'"),
                *span,
            ).with_label(*span, cat3("type '", f, "' is not bool")).with_hint(
                suggest_bool_conversion(&constraint.found),
            )
        },
        ConstraintOrigin::FieldInit { struct_span: _, field_name, field_span, value_span } => {
            let mut message = cat5("incompatible type for field '", field_name.as_str(), "': expected '", e, "', found '");
            message.append(f);
            message.append("'");
            Diagnostic::error(DiagCode::T002IncompatibleAssignment, message, *value_span).with_label(
                *field_span,
                cat5("field '", field_name.as_str(), "' has type '", e, "'"),
            ).with_label(*value_span, cat3("value has type '", f, "'"))
        },
        ConstraintOrigin::SetTarget { place_span, value_span } => {
            Diagnostic::error(
                DiagCode::T002IncompatibleAssignment,
                cat5("incompatible type in set: expected '", e, "', found '", f, "'"),
                *value_span,
            ).with_label(*place_span, cat3("place has type '", e, "'")).with_label(
                *value_span,
                cat3("value has type '", f, "'"),
            )
        },
        ConstraintOrigin::CastExpr { expr_span, target_span } => {
            Diagnostic::error(
                DiagCode::T010InvalidCast,
                cat5("invalid cast from '", f, "' to '", e, "'"),
                *target_span,
            ).with_label(*expr_span, cat3("expression has type '", f, "'")).with_label(
                *target_span,
                cat3("cast to '", e, "' is not possible"),
            )
        },
        ConstraintOrigin::ImplicitWidening { source_span, target_span } => {
            Diagnostic::error(
                DiagCode::T015ImplicitWidening,
                cat5("implicit widening from '", f, "' to '", e, "' is not allowed"),
                *source_span,
            ).with_label(*source_span, cat3("type '", f, "' here")).with_label(
                *target_span,
                cat3("expected '", e, "'"),
            ).with_hint(cat3("use explicit conversion: 'value as ", e, "'"))
        },
        ConstraintOrigin::TryInvalid { span } => {
            Diagnostic::error(
                DiagCode::T016TryInvalid,
                cat3("the '?' operator can only be applied to a Result tuple, found '", f, "'"),
                *span,
            ).with_label(*span, cat3("this has type '", f, "'")).with_hint(
                String::from_str(
                    "ensure the expression returns a tuple where the second element is an error type",
                ),
            )
        },
        ConstraintOrigin::InvalidIndex { base_span, index_span, is_base_error } => {
            if *is_base_error {
                Diagnostic::error(
                    DiagCode::T017InvalidIndex,
                    cat3("type '", e, "' cannot be indexed"),
                    *base_span,
                ).with_label(*base_span, cat3("this has type '", e, "', expected array or slice"))
            } else {
                Diagnostic::error(
                    DiagCode::T017InvalidIndex,
                    cat3("index must be of type 'int', found '", f, "'"),
                    *index_span,
                ).with_label(*index_span, cat3("this has type '", f, "'"))
            }
        },
        ConstraintOrigin::UndefinedField { base_span, field_span, field_name } => {
            Diagnostic::error(
                DiagCode::T018UndefinedField,
                cat5("no field '", field_name.as_str(), "' on type '", e, "'"),
                *field_span,
            ).with_label(*base_span, cat3("this has type '", e, "'")).with_label(
                *field_span,
                String::from_str("unknown field"),
            )
        },
    }
}

} // verus!
