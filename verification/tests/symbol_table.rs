use arandu_semantics::ids::{ScopeId, Span};
use arandu_semantics::symbol_table::{SymbolKind, SymbolTable};

fn span() -> Span {
    Span::new(0, 0)
}

#[test]
fn define_and_lookup_through_scopes() {
    let mut st = SymbolTable::new();
    let global = st.global_scope();
    let x = st.define(global, "x", SymbolKind::Local, span()).unwrap();
    let inner = st.new_scope(global);
    assert_eq!(st.lookup_value(inner, "x"), Some(x));
    let shadow = st.define(inner, "x", SymbolKind::Local, span()).unwrap();
    assert_eq!(st.lookup_value(inner, "x"), Some(shadow));
    assert_eq!(st.lookup_value(global, "x"), Some(x));
    assert_eq!(st.lookup_value(inner, "y"), None);
    assert_eq!(st.get(x).name, "x");
    assert_eq!(st.iter().len(), 2);
}

#[test]
fn redefinition_is_refused_with_the_first_symbol() {
    let mut st = SymbolTable::new();
    let global = st.global_scope();
    let first = st.define(global, "f", SymbolKind::Func, span()).unwrap();
    assert_eq!(st.define(global, "f", SymbolKind::Func, span()), Err(first));
    assert_eq!(st.iter().len(), 1);
}

#[test]
fn kinds_separate_values_and_types() {
    let mut st = SymbolTable::new();
    let global = st.global_scope();
    let point = st.define(global, "Point", SymbolKind::Struct, span()).unwrap();
    assert_eq!(st.lookup_type(global, "Point"), Some(point));
    assert_eq!(st.lookup_value(global, "Point"), None);
    assert_eq!(st.lookup_any(global, "Point"), Some(point));
    let m = st.define(global, "io", SymbolKind::Module, span()).unwrap();
    assert_eq!(st.lookup_module(global, "io"), Some(m));
    assert!(SymbolKind::Func.is_value());
    assert!(SymbolKind::Struct.is_type());
    assert!(!SymbolKind::Module.is_value());
}

#[test]
fn candidates_follow_the_scope_chain() {
    let mut st = SymbolTable::new();
    let global = st.global_scope();
    st.define(global, "count", SymbolKind::Local, span()).unwrap();
    st.define(global, "Count", SymbolKind::Struct, span()).unwrap();
    let inner = st.new_scope(global);
    st.define(inner, "counter", SymbolKind::Local, span()).unwrap();
    let values: Vec<String> = st.value_candidates(inner).iter().map(|s| s.name.clone()).collect();
    assert!(values.contains(&"count".to_string()));
    assert!(values.contains(&"counter".to_string()));
    assert!(!values.contains(&"Count".to_string()));
    let types: Vec<String> = st.type_candidates(inner).iter().map(|s| s.name.clone()).collect();
    assert_eq!(types, vec!["Count".to_string()]);
}

#[test]
fn module_members_are_recorded() {
    let mut st = SymbolTable::new();
    let println = st.define_module_member("io", "println", span()).unwrap();
    assert_eq!(st.get(println).name, "io.println");
    assert_eq!(st.get(println).kind, SymbolKind::NamespaceMember);
    assert_eq!(st.lookup_module_member("io", "println"), Some(println));
    assert_eq!(st.lookup_module_member("io", "print"), None);
    assert_eq!(st.lookup_module_member("fs", "println"), None);
    assert_eq!(st.define_module_member("io", "println", span()), Err(println));
}

#[test]
fn associated_members_are_recorded() {
    let mut st = SymbolTable::new();
    let new = st.define_associated_member("Point", "new", span()).unwrap();
    assert_eq!(st.get(new).name, "Point.new");
    assert_eq!(st.get(new).kind, SymbolKind::AssociatedFunc);
    assert_eq!(st.lookup_associated_member("Point", "new"), Some(new));
    assert_eq!(st.lookup_associated_member("Point", "len"), None);
}

#[test]
fn merge_renumbers_the_other_table() {
    let mut a = SymbolTable::new();
    let ga = a.global_scope();
    a.define(ga, "main", SymbolKind::Func, span()).unwrap();
    let sa = a.new_scope(ga);
    a.define(sa, "tmp", SymbolKind::Local, span()).unwrap();

    let mut b = SymbolTable::new();
    let gb = b.global_scope();
    let helper = b.define(gb, "helper", SymbolKind::Func, span()).unwrap();
    let sb = b.new_scope(gb);
    let local = b.define(sb, "x", SymbolKind::Local, span()).unwrap();
    let member = b.define_module_member("io", "println", span()).unwrap();

    a.merge_from(b);
    assert_eq!(a.iter().len(), 5);
    let moved_helper = a.lookup_value(ga, "helper").unwrap();
    assert_eq!(moved_helper.0, helper.0 + 2);
    assert_eq!(a.get(moved_helper).scope, ScopeId(0));
    let moved_scope = ScopeId(sb.0 + 1);
    let moved_local = a.lookup_value(moved_scope, "x").unwrap();
    assert_eq!(moved_local.0, local.0 + 2);
    assert_eq!(a.get(moved_local).scope, moved_scope);
    assert_eq!(a.lookup_value(moved_scope, "main").map(|s| s.0), Some(0));
    assert_eq!(a.lookup_module_member("io", "println").map(|s| s.0), Some(member.0 + 2));
    assert_eq!(a.lookup_value(sa, "tmp").map(|s| s.0), Some(1));
}

#[test]
fn default_table_has_only_the_global_scope() {
    let st = SymbolTable::default();
    assert_eq!(st.global_scope(), ScopeId(0));
    assert_eq!(st.iter().len(), 0);
    assert_eq!(st.lookup_any(st.global_scope(), "x"), None);
}
