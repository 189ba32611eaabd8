use arandu_semantics::ar_type::ArType;
use arandu_semantics::graph::{mangle_symbol, InstantiationGraph, InstantiationKey, MonoError};
use arandu_semantics::ids::{Span, SymbolId};
use arandu_semantics::mangle::demangle_symbol;
use arandu_semantics::primitive::Primitive;
use arandu_semantics::symbol_table::{SymbolKind, SymbolTable};
use arandu_semantics::type_interner::TypeInterner;

fn setup() -> (SymbolTable, TypeInterner) {
    (SymbolTable::new(), TypeInterner::new())
}

fn define_symbol(st: &mut SymbolTable, name: &str) -> SymbolId {
    st.define(st.global_scope(), name, SymbolKind::Func, Span::new(0, 0))
        .unwrap()
}

#[test]
fn monomorphize_test_graph_deduplication() {
    let (mut st, mut interner) = setup();
    let sym = define_symbol(&mut st, "identity");
    let tid = interner.intern(ArType::Primitive(Primitive::Int));

    let mut graph = InstantiationGraph::new();
    let key = InstantiationKey {
        symbol: sym,
        type_args: vec![tid],
    };

    let id1 = graph.get_or_insert(key.clone(), &interner, &st).unwrap();
    let id2 = graph.get_or_insert(key, &interner, &st).unwrap();
    assert_eq!(id1, id2);
    assert_eq!(graph.len(), 1);
}

#[test]
fn mod_test_graph_deduplication() {
    let (mut st, mut interner) = setup();
    let sym = define_symbol(&mut st, "identity");
    let int_id = interner.intern(ArType::Primitive(Primitive::Int));

    let mut graph = InstantiationGraph::new();
    let key = InstantiationKey {
        symbol: sym,
        type_args: vec![int_id],
    };

    let id1 = graph.get_or_insert(key.clone(), &interner, &st).unwrap();
    let id2 = graph.get_or_insert(key, &interner, &st).unwrap();
    assert_eq!(id1, id2);
    assert!(graph.len() >= 1);
}

fn different_type_args_different_nodes() {
    let (mut st, mut interner) = setup();
    let sym = define_symbol(&mut st, "identity");
    let int_id = interner.intern(ArType::Primitive(Primitive::Int));
    let str_id = interner.intern(ArType::Primitive(Primitive::Str));

    let mut graph = InstantiationGraph::new();
    let id1 = graph
        .get_or_insert(
            InstantiationKey {
                symbol: sym,
                type_args: vec![int_id],
            },
            &interner,
            &st,
        )
        .unwrap();
    let id2 = graph
        .get_or_insert(
            InstantiationKey {
                symbol: sym,
                type_args: vec![str_id],
            },
            &interner,
            &st,
        )
        .unwrap();
    assert_ne!(id1, id2);
    assert_eq!(graph.len(), 2);
}

#[test]
fn monomorphize_test_different_type_args_different_nodes() {
    different_type_args_different_nodes();
}

#[test]
fn mod_test_different_type_args_different_nodes() {
    different_type_args_different_nodes();
}

fn recursion_limit() {
    let (mut st, mut interner) = setup();
    let sym = define_symbol(&mut st, "recursive");

    let mut graph = InstantiationGraph::with_recursion_limit(3);
    for i in 0..3 {
        let tid = interner.intern(ArType::Array(i, Box::new(ArType::Primitive(Primitive::Int))));
        graph
            .get_or_insert(
                InstantiationKey {
                    symbol: sym,
                    type_args: vec![tid],
                },
                &interner,
                &st,
            )
            .unwrap();
    }

    // 4th unique instantiation of the same symbol should fail
    let tid = interner.intern(ArType::Array(99, Box::new(ArType::Primitive(Primitive::Int))));
    let result = graph.get_or_insert(
        InstantiationKey {
            symbol: sym,
            type_args: vec![tid],
        },
        &interner,
        &st,
    );
    assert_eq!(
        result,
        Err(MonoError::RecursionLimitExceeded {
            symbol: sym,
            limit: 3,
        })
    );
}

#[test]
fn monomorphize_test_recursion_limit() {
    recursion_limit();
}

#[test]
fn mod_test_recursion_limit() {
    recursion_limit();
}

fn cycle_detection() {
    let (mut st, mut interner) = setup();
    let sym_a = define_symbol(&mut st, "funcA");
    let sym_b = define_symbol(&mut st, "funcB");
    let tid = interner.intern(ArType::Primitive(Primitive::Int));

    let mut graph = InstantiationGraph::new();
    let id_a = graph
        .get_or_insert(
            InstantiationKey {
                symbol: sym_a,
                type_args: vec![tid],
            },
            &interner,
            &st,
        )
        .unwrap();
    let id_b = graph
        .get_or_insert(
            InstantiationKey {
                symbol: sym_b,
                type_args: vec![tid],
            },
            &interner,
            &st,
        )
        .unwrap();

    graph.add_edge(id_a, id_b);
    graph.add_edge(id_b, id_a); // cycle!

    let cycle = graph.find_cycle();
    assert!(cycle.is_some(), "expected cycle to be detected");
}

#[test]
fn monomorphize_test_cycle_detection() {
    cycle_detection();
}

#[test]
fn mod_test_cycle_detection() {
    cycle_detection();
}

fn no_cycle_in_dag() {
    let (mut st, mut interner) = setup();
    let sym_a = define_symbol(&mut st, "funcA");
    let sym_b = define_symbol(&mut st, "funcB");
    let sym_c = define_symbol(&mut st, "funcC");
    let tid = interner.intern(ArType::Primitive(Primitive::Int));

    let mut graph = InstantiationGraph::new();
    let mut ids = Vec::new();
    for sym in [sym_a, sym_b, sym_c] {
        ids.push(
            graph
                .get_or_insert(
                    InstantiationKey {
                        symbol: sym,
                        type_args: vec![tid],
                    },
                    &interner,
                    &st,
                )
                .unwrap(),
        );
    }
    let (id_a, id_b, id_c) = (ids[0], ids[1], ids[2]);

    // A -> B, A -> C, B -> C (DAG, no cycle)
    graph.add_edge(id_a, id_b);
    graph.add_edge(id_a, id_c);
    graph.add_edge(id_b, id_c);

    assert!(graph.find_cycle().is_none());
}

#[test]
fn monomorphize_test_no_cycle_in_dag() {
    no_cycle_in_dag();
}

#[test]
fn mod_test_no_cycle_in_dag() {
    no_cycle_in_dag();
}

fn mangling_simple() {
    let (mut st, mut interner) = setup();
    let sym = define_symbol(&mut st, "identity");
    let tid = interner.intern(ArType::Primitive(Primitive::Int));

    let key = InstantiationKey {
        symbol: sym,
        type_args: vec![tid],
    };

    let mangled = mangle_symbol(&key, &interner, &st);
    assert!(mangled.starts_with("_A$identity$I"));
    assert!(mangled.ends_with("$E"));
    assert!(mangled.contains("int"));
}

#[test]
fn monomorphize_test_mangling_simple() {
    mangling_simple();
}

#[test]
fn mod_test_mangling_simple() {
    mangling_simple();
}

fn mangling_multi_arg() {
    let (mut st, mut interner) = setup();
    let sym = define_symbol(&mut st, "swap");
    let int_id = interner.intern(ArType::Primitive(Primitive::Int));
    let str_id = interner.intern(ArType::Primitive(Primitive::Str));

    let key = InstantiationKey {
        symbol: sym,
        type_args: vec![int_id, str_id],
    };

    let mangled = mangle_symbol(&key, &interner, &st);
    assert!(mangled.contains("int"));
    assert!(mangled.contains("str"));
}

#[test]
fn monomorphize_test_mangling_multi_arg() {
    mangling_multi_arg();
}

#[test]
fn mod_test_mangling_multi_arg() {
    mangling_multi_arg();
}

fn demangle_roundtrip() {
    let demangled = demangle_symbol("_A$identity$I__int_$E");
    assert!(demangled.is_some());
    let s = demangled.unwrap();
    assert!(s.contains("identity"), "got: {s}");
}

#[test]
fn monomorphize_test_demangle_roundtrip() {
    demangle_roundtrip();
}

#[test]
fn mod_test_demangle_roundtrip() {
    demangle_roundtrip();
}

fn mangled_names_are_unique() {
    let (mut st, mut interner) = setup();
    let sym = define_symbol(&mut st, "identity");
    let int_id = interner.intern(ArType::Primitive(Primitive::Int));
    let bool_id = interner.intern(ArType::Primitive(Primitive::Bool));

    let key_int = InstantiationKey {
        symbol: sym,
        type_args: vec![int_id],
    };
    let key_bool = InstantiationKey {
        symbol: sym,
        type_args: vec![bool_id],
    };

    let mangled_int = mangle_symbol(&key_int, &interner, &st);
    let mangled_bool = mangle_symbol(&key_bool, &interner, &st);
    assert_ne!(mangled_int, mangled_bool);
}

#[test]
fn monomorphize_test_mangled_names_are_unique() {
    mangled_names_are_unique();
}

#[test]
fn mod_test_mangled_names_are_unique() {
    mangled_names_are_unique();
}

#[test]
fn exact_mangled_names() {
    let (mut st, mut interner) = setup();
    let swap = define_symbol(&mut st, "swap");
    let int_id = interner.intern(ArType::Primitive(Primitive::Int));
    let str_id = interner.intern(ArType::Primitive(Primitive::Str));
    let one = InstantiationKey { symbol: swap, type_args: vec![int_id] };
    assert_eq!(mangle_symbol(&one, &interner, &st), "_A$swap$I_int_$E");
    let two = InstantiationKey { symbol: swap, type_args: vec![int_id, str_id] };
    assert_eq!(mangle_symbol(&two, &interner, &st), "_A$swap$I_int_str_$E");
    let none = InstantiationKey { symbol: swap, type_args: vec![] };
    assert_eq!(mangle_symbol(&none, &interner, &st), "_A$swap$I_$E");
}

#[test]
fn exact_demangled_names() {
    assert_eq!(demangle_symbol("_A$identity$I__int_$E"), Some("identity<int>".to_string()));
    assert_eq!(demangle_symbol("_A$swap$I_int__str_$E"), Some("swap<int, str>".to_string()));
    assert_eq!(demangle_symbol("_A$swap$I_$E"), Some("swap".to_string()));
    assert_eq!(demangle_symbol("_A$f$I$E"), Some("f".to_string()));
    assert_eq!(demangle_symbol("identity"), None);
    assert_eq!(demangle_symbol("_A$identity_int_$E"), None);
    assert_eq!(demangle_symbol("_A$identity$I_int_"), None);
    assert_eq!(demangle_symbol("_A$E"), None);
}

#[test]
fn mangle_then_demangle_gives_the_readable_name() {
    let (mut st, mut interner) = setup();
    let pair = define_symbol(&mut st, "pair");
    let int_id = interner.intern(ArType::Primitive(Primitive::Int));
    let bool_id = interner.intern(ArType::Primitive(Primitive::Bool));
    let key = InstantiationKey { symbol: pair, type_args: vec![int_id, bool_id] };
    let mangled = mangle_symbol(&key, &interner, &st);
    assert_eq!(demangle_symbol(&mangled), Some("pair<int, bool>".to_string()));
}

#[test]
fn inserted_nodes_carry_their_mangled_name() {
    let (mut st, mut interner) = setup();
    let sym = define_symbol(&mut st, "identity");
    let tid = interner.intern(ArType::Primitive(Primitive::Int));
    let mut graph = InstantiationGraph::new();
    assert!(graph.is_empty());
    let key = InstantiationKey { symbol: sym, type_args: vec![tid] };
    let id = graph.get_or_insert(key.clone(), &interner, &st).unwrap();
    let node = graph.get_node(id);
    assert_eq!(node.mangled_name, "_A$identity$I_int_$E");
    assert!(node.callees.is_empty());
    assert_eq!(graph.lookup(&key), Some(id));
    let other = InstantiationKey { symbol: sym, type_args: vec![] };
    assert_eq!(graph.lookup(&other), None);
    assert_eq!(graph.iter().len(), 1);
}

#[test]
fn self_loop_is_a_cycle() {
    let (mut st, mut interner) = setup();
    let sym = define_symbol(&mut st, "loop");
    let tid = interner.intern(ArType::Void);
    let mut graph = InstantiationGraph::default();
    let id = graph
        .get_or_insert(InstantiationKey { symbol: sym, type_args: vec![tid] }, &interner, &st)
        .unwrap();
    graph.add_edge(id, id);
    assert_eq!(graph.find_cycle(), Some(vec![id]));
}

#[test]
fn cycle_found_is_the_back_edge_loop() {
    let (mut st, mut interner) = setup();
    let tid = interner.intern(ArType::Void);
    let mut graph = InstantiationGraph::new();
    let mut ids = Vec::new();
    for name in ["a", "b", "c"] {
        let sym = define_symbol(&mut st, name);
        ids.push(
            graph
                .get_or_insert(InstantiationKey { symbol: sym, type_args: vec![tid] }, &interner, &st)
                .unwrap(),
        );
    }
    graph.add_edge(ids[0], ids[1]);
    graph.add_edge(ids[1], ids[2]);
    graph.add_edge(ids[2], ids[1]);
    assert_eq!(graph.find_cycle(), Some(vec![ids[1], ids[2]]));
}

#[test]
fn interner_deduplicates() {
    let mut interner = TypeInterner::new();
    let a = interner.intern(ArType::Nullable(Box::new(ArType::Primitive(Primitive::Str))));
    let b = interner.intern(ArType::Primitive(Primitive::Str));
    let c = interner.intern(ArType::Nullable(Box::new(ArType::Primitive(Primitive::Str))));
    assert_eq!(a, c);
    assert_ne!(a, b);
    assert_eq!(interner.len(), 2);
    assert_eq!(interner.resolve(b), &ArType::Primitive(Primitive::Str));
}

#[test]
fn first_cycle_met_depth_first_is_returned() {
    let (mut st, mut interner) = setup();
    let tid = interner.intern(ArType::Primitive(Primitive::Int));
    let mut graph = InstantiationGraph::new();
    let mut ids = Vec::new();
    for name in ["f0", "f1", "f2", "f3"] {
        let sym = define_symbol(&mut st, name);
        ids.push(
            graph
                .get_or_insert(InstantiationKey { symbol: sym, type_args: vec![tid] }, &interner, &st)
                .unwrap(),
        );
    }
    // 0 -> 1 -> 2 -> 1, and 0 -> 3 -> 0: the search from 0 meets 1 -> 2 -> 1 first.
    graph.add_edge(ids[0], ids[1]);
    graph.add_edge(ids[1], ids[2]);
    graph.add_edge(ids[2], ids[1]);
    graph.add_edge(ids[0], ids[3]);
    graph.add_edge(ids[3], ids[0]);
    assert_eq!(graph.find_cycle(), Some(vec![ids[1], ids[2]]));
}
