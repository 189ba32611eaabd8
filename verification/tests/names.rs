use arandu_semantics::hints::{is_string_type, operator_hint, suggest_bool_conversion};
use arandu_semantics::ar_type::ArType;
use arandu_semantics::ids::Span;
use arandu_semantics::names::{is_type_case, variant_short_name};
use arandu_semantics::primitive::Primitive;
use arandu_semantics::resolved::{NodeKey, ResolvedNames};
use arandu_semantics::ids::SymbolId;
use arandu_semantics::result_option::{
    is_err_type, is_option_type, is_result_type, is_tryable_type, result_ok_err, try_ok_type,
};
use arandu_semantics::suggest::{levenshtein, suggest_from};
use arandu_semantics::symbol_table::{SymbolKind, SymbolTable};

#[test]
fn type_case_names() {
    assert!(is_type_case("Point"));
    assert!(is_type_case("Écran"));
    assert!(!is_type_case("point"));
    assert!(!is_type_case("_Point"));
    assert!(!is_type_case(""));
}

#[test]
fn variant_short_names() {
    assert_eq!(variant_short_name("Color", "Color.Red"), "Red");
    assert_eq!(variant_short_name("Color", "Shade.Red"), "Shade.Red");
    assert_eq!(variant_short_name("Color", "ColorRed"), "ColorRed");
    assert_eq!(variant_short_name("Color", "Color."), "");
    assert_eq!(variant_short_name("Color", "Col"), "Col");
}

#[test]
fn levenshtein_distances() {
    assert_eq!(levenshtein("kitten", "sitting"), 3);
    assert_eq!(levenshtein("", "abc"), 3);
    assert_eq!(levenshtein("abc", ""), 3);
    assert_eq!(levenshtein("same", "same"), 0);
    assert_eq!(levenshtein("ação", "acao"), 2);
}

#[test]
fn suggestions_pick_the_closest_name() {
    let mut st = SymbolTable::new();
    let g = st.global_scope();
    st.define(g, "counter", SymbolKind::Local, Span::new(0, 0)).unwrap();
    st.define(g, "county", SymbolKind::Local, Span::new(0, 0)).unwrap();
    st.define(g, "total", SymbolKind::Local, Span::new(0, 0)).unwrap();
    let candidates = st.value_candidates(g);
    assert_eq!(suggest_from("countor", &candidates), Some("counter".to_string()));
    assert_eq!(suggest_from("totl", &candidates), Some("total".to_string()));
    assert_eq!(suggest_from("zzzzzzzz", &candidates), None);
    let none: Vec<&arandu_semantics::symbol_table::Symbol> = Vec::new();
    assert_eq!(suggest_from("x", &none), None);
}

#[test]
fn suggestion_ties_go_to_the_first_candidate() {
    let mut st = SymbolTable::new();
    let g = st.global_scope();
    st.define(g, "bat", SymbolKind::Local, Span::new(0, 0)).unwrap();
    st.define(g, "cat", SymbolKind::Local, Span::new(0, 0)).unwrap();
    let candidates = st.value_candidates(g);
    assert_eq!(suggest_from("hat", &candidates), Some("bat".to_string()));
}

#[test]
fn bool_conversion_hints() {
    assert_eq!(
        suggest_bool_conversion(&ArType::Primitive(Primitive::Int)),
        "use explicit comparison: 'value != 0'"
    );
    assert_eq!(
        suggest_bool_conversion(&ArType::Nullable(Box::new(ArType::Primitive(Primitive::Int)))),
        "use explicit comparison: 'value != nil'"
    );
    assert_eq!(
        suggest_bool_conversion(&ArType::Primitive(Primitive::Str)),
        "strings are not automatically bool — use explicit comparison"
    );
    assert_eq!(suggest_bool_conversion(&ArType::Void), "type is not convertible to bool");
    assert!(is_string_type(&ArType::Primitive(Primitive::Str)));
    assert!(!is_string_type(&ArType::Primitive(Primitive::Char)));
}

#[test]
fn operator_hints() {
    let st = SymbolTable::new();
    let int_ty = ArType::Primitive(Primitive::Int);
    let f64 = ArType::Primitive(Primitive::F64);
    let s = ArType::Primitive(Primitive::Str);
    assert_eq!(
        operator_hint(&s, &int_ty, &st),
        Some("to concatenate with string, use interpolation: \"${value}\"".to_string())
    );
    assert_eq!(operator_hint(&int_ty, &f64, &st), Some("convert explicitly: 'value as f64'".to_string()));
    assert_eq!(operator_hint(&f64, &int_ty, &st), Some("convert explicitly: 'value as f64'".to_string()));
    assert_eq!(
        operator_hint(&int_ty, &ArType::Primitive(Primitive::U8), &st),
        Some("convert explicitly: 'value as u8'".to_string())
    );
    assert_eq!(operator_hint(&int_ty, &ArType::Void, &st), None);
}

#[test]
fn result_and_option_shapes() {
    let int_ty = ArType::Primitive(Primitive::Int);
    let res = ArType::Result(Box::new(int_ty.clone()), Box::new(ArType::ErrType));
    assert!(is_result_type(&res));
    assert_eq!(result_ok_err(&res), Some((int_ty.clone(), ArType::ErrType)));
    assert_eq!(try_ok_type(&res), Some(int_ty.clone()));
    let opt = ArType::Option(Box::new(int_ty.clone()));
    assert!(is_option_type(&opt));
    assert_eq!(try_ok_type(&opt), Some(int_ty.clone()));
    let nullable = ArType::Nullable(Box::new(int_ty.clone()));
    assert_eq!(try_ok_type(&nullable), Some(int_ty.clone()));
    let err_opt = ArType::Nullable(Box::new(ArType::ErrType));
    assert!(is_err_type(&err_opt));
    assert!(is_err_type(&ArType::ErrType));
    assert_eq!(try_ok_type(&err_opt), None);
    assert!(!is_tryable_type(&err_opt));
    assert!(is_tryable_type(&res));
    assert!(!is_tryable_type(&int_ty));
    assert_eq!(result_ok_err(&int_ty), None);
}

#[test]
fn resolved_names_record_by_span() {
    let mut names = ResolvedNames::default();
    let span = Span::new(3, 9);
    let key = NodeKey::from(span);
    assert_eq!(key, NodeKey { start: 3, end: 9 });
    assert_eq!(names.definition_at(key), None);
    names.define(span, SymbolId(4));
    names.value_ref(span, SymbolId(5));
    names.type_ref(Span::new(10, 12), SymbolId(6));
    assert_eq!(names.definition_at(key), Some(SymbolId(4)));
    assert_eq!(names.value_ref_at(key), Some(SymbolId(5)));
    assert_eq!(names.type_ref_at(key), None);
    assert_eq!(names.type_ref_at(NodeKey { start: 10, end: 12 }), Some(SymbolId(6)));
    names.define(span, SymbolId(7));
    assert_eq!(names.definition_at(key), Some(SymbolId(7)));
}
