use arandu_semantics::ar_type::ArType;
use arandu_semantics::fresh::fresh_symbol;
use arandu_semantics::ids::{Span, SymbolId};
use arandu_semantics::primitive::Primitive;
use arandu_semantics::symbol_table::{SymbolKind, SymbolTable};
use arandu_semantics::type_info::{ExprId, TypeInfo};

#[test]
fn recorded_types_read_back() {
    let mut info = TypeInfo::new();
    assert_eq!(info.expr_type(ExprId(3)), None);
    let a = info.record_expr_type(ExprId(3), ArType::Primitive(Primitive::Int));
    assert_eq!(info.expr_type(ExprId(3)), Some(&ArType::Primitive(Primitive::Int)));
    assert_eq!(info.expr_type(ExprId(2)), None);
    assert_eq!(info.expr_type(ExprId(40)), None);
    let b = info.record_decl_type(SymbolId(7), ArType::Primitive(Primitive::Int));
    assert_eq!(a, b);
    assert_eq!(info.decl_type(SymbolId(7)), Some(&ArType::Primitive(Primitive::Int)));
    assert_eq!(info.decl_type(SymbolId(8)), None);
    let c = info.record_expr_type(ExprId(3), ArType::Primitive(Primitive::Str));
    assert_ne!(a, c);
    assert_eq!(info.expr_type(ExprId(3)), Some(&ArType::Primitive(Primitive::Str)));
    assert_eq!(info.resolve_type_id(a), &ArType::Primitive(Primitive::Int));
    assert_eq!(ExprId::from_usize(5).as_usize(), 5);
}

#[test]
fn fresh_symbols_get_numbered_names() {
    let mut st = SymbolTable::new();
    let g = st.global_scope();
    let first = fresh_symbol(&mut st, "tmp", SymbolKind::Func, Span::new(0, 0));
    assert_eq!(st.get(first).name, "tmp");
    let second = fresh_symbol(&mut st, "tmp", SymbolKind::Func, Span::new(0, 0));
    assert_eq!(st.get(second).name, "tmp__1");
    st.define(g, "tmp__2", SymbolKind::Func, Span::new(0, 0)).unwrap();
    let fourth = fresh_symbol(&mut st, "tmp", SymbolKind::Func, Span::new(1, 2));
    assert_eq!(st.get(fourth).name, "tmp__3");
    assert_eq!(st.get(fourth).span, Span::new(1, 2));
    assert_eq!(st.lookup_value(g, "tmp__3"), Some(fourth));
}
