use arandu_semantics::ar_type::ArType;
use arandu_semantics::diagnostics::{DiagCode, Diagnostic};
use arandu_semantics::ids::{Span, SymbolId};
use arandu_semantics::match_exhaust::{check_match_exhaustiveness, MatchPattern};
use arandu_semantics::primitive::Primitive;
use arandu_semantics::symbol_table::{SymbolKind, SymbolTable};
use arandu_semantics::type_info::{EnumPayloadShape, TypeInfo};

struct Fixture {
    symbols: SymbolTable,
    color: SymbolId,
    type_info: TypeInfo,
}

fn fixture() -> Fixture {
    let mut symbols = SymbolTable::new();
    let global = symbols.global_scope();
    let color = symbols.define(global, "Color", SymbolKind::Enum, Span::new(0, 0)).unwrap();
    let shape = symbols.define(global, "Shape", SymbolKind::Enum, Span::new(0, 0)).unwrap();
    let mut type_info = TypeInfo::new();
    for name in ["Color.Red", "Color.Green", "Color.Blue"] {
        let v = symbols.define(global, name, SymbolKind::EnumVariant, Span::new(0, 0)).unwrap();
        type_info.record_enum_variant(v, color, EnumPayloadShape::Unit);
    }
    let circle = symbols.define(global, "Shape.Circle", SymbolKind::EnumVariant, Span::new(0, 0)).unwrap();
    type_info.record_enum_variant(circle, shape, EnumPayloadShape::Tuple(vec![ArType::Primitive(Primitive::Float)]));
    Fixture { symbols, color, type_info }
}

fn run(fx: &Fixture, ty: &ArType, arms: Vec<MatchPattern>) -> Vec<Diagnostic> {
    let mut diags = Vec::new();
    check_match_exhaustiveness(&mut diags, &fx.symbols, &fx.type_info, ty, &arms, Span::new(3, 9));
    diags
}

fn variant(name: &str) -> MatchPattern {
    MatchPattern::Enum { variant: name.to_string() }
}

#[test]
fn missing_variants_are_listed_in_sorted_order() {
    let fx = fixture();
    let ty = ArType::Named(fx.color, vec![]);
    let diags = run(&fx, &ty, vec![variant("Green")]);
    assert_eq!(diags.len(), 1);
    assert_eq!(diags[0].code, DiagCode::T024NonExhaustiveMatch);
    assert_eq!(diags[0].message, "non-exhaustive match: missing variant(s): Blue, Red");
    assert_eq!(diags[0].span, Span::new(3, 9));
}

#[test]
fn all_variants_named_is_exhaustive() {
    let fx = fixture();
    let ty = ArType::Named(fx.color, vec![]);
    let arms = vec![
        variant("Red"),
        MatchPattern::TypeTuple { name: "Color.Green".to_string() },
        MatchPattern::TypeTuple { name: "Blue".to_string() },
    ];
    assert!(run(&fx, &ty, arms).is_empty());
}

#[test]
fn wildcard_or_binding_covers_everything() {
    let fx = fixture();
    let ty = ArType::Named(fx.color, vec![]);
    assert!(run(&fx, &ty, vec![MatchPattern::Wildcard]).is_empty());
    assert!(run(&fx, &ty, vec![variant("Red"), MatchPattern::Bind]).is_empty());
}

#[test]
fn only_the_enums_own_variants_count() {
    let fx = fixture();
    let ty = ArType::Named(fx.color, vec![]);
    let diags = run(&fx, &ty, vec![variant("Red"), variant("Blue"), MatchPattern::Other]);
    assert_eq!(diags.len(), 1);
    assert_eq!(diags[0].message, "non-exhaustive match: missing variant(s): Green");
}

#[test]
fn non_enum_values_and_enums_without_variants_are_not_checked() {
    let mut fx = fixture();
    assert!(run(&fx, &ArType::Primitive(Primitive::Int), vec![]).is_empty());
    let global = fx.symbols.global_scope();
    let empty = fx.symbols.define(global, "Empty", SymbolKind::Enum, Span::new(0, 0)).unwrap();
    assert!(run(&fx, &ArType::Named(empty, vec![]), vec![]).is_empty());
}

#[test]
fn enum_variant_records_are_kept() {
    let fx = fixture();
    let entries = fx.type_info.enum_variant_entries();
    assert_eq!(entries.len(), 4);
    assert_eq!(entries.iter().filter(|e| e.1 == fx.color).count(), 3);
    let (red, _) = entries.iter().copied().find(|e| fx.symbols.get(e.0).name == "Color.Red").unwrap();
    match fx.type_info.enum_variant(red) {
        Some((parent, EnumPayloadShape::Unit)) => assert_eq!(*parent, fx.color),
        other => panic!("unexpected record: {:?}", other),
    }
    assert!(fx.type_info.enum_variant(fx.color).is_none());
}
