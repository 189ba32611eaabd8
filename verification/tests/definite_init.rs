use arandu_semantics::definite_init::{
    check_definite_init, AmirBlock, AmirFunc, AmirPlace, AmirRvalue, AmirStmt, AmirTerminator,
    BlockId,
};
use arandu_semantics::diagnostics::DiagCode;
use arandu_semantics::ids::Span;
use arandu_semantics::init_bits::LocalId;
use arandu_semantics::symbol_table::{SymbolKind, SymbolTable};

fn place(local: usize) -> AmirPlace {
    AmirPlace { local: LocalId::from_usize(local), projected: false }
}

fn store(local: usize) -> AmirStmt {
    AmirStmt::Store { lhs: place(local) }
}

fn load(local: usize) -> AmirStmt {
    AmirStmt::Assign { rhs: AmirRvalue::Load(place(local)) }
}

fn block(id: usize, statements: Vec<AmirStmt>, terminator: AmirTerminator, preds: &[usize]) -> AmirBlock {
    AmirBlock {
        id: BlockId::from_usize(id),
        statements,
        terminator,
        predecessors: preds.iter().map(|&p| BlockId::from_usize(p)).collect(),
    }
}

fn goto(b: usize) -> AmirTerminator {
    AmirTerminator::Goto(BlockId::from_usize(b))
}

fn branch(t: usize, f: usize) -> AmirTerminator {
    AmirTerminator::Branch { if_true: BlockId::from_usize(t), if_false: BlockId::from_usize(f) }
}

fn diamond(store_in_then: bool, store_in_else: bool) -> AmirFunc {
    let then_stmts = if store_in_then { vec![store(0)] } else { vec![] };
    let else_stmts = if store_in_else { vec![store(0)] } else { vec![] };
    AmirFunc {
        locals: vec![None],
        blocks: vec![
            block(0, vec![], branch(1, 2), &[]),
            block(1, then_stmts, goto(3), &[0]),
            block(2, else_stmts, goto(3), &[0]),
            block(3, vec![load(0)], AmirTerminator::Return, &[1, 2]),
        ],
    }
}

#[test]
fn test_no_error_when_stored_before_load() {
    let func = AmirFunc {
        locals: vec![None],
        blocks: vec![block(0, vec![store(0), load(0)], AmirTerminator::Return, &[])],
    };
    let st = SymbolTable::new();
    let diags = check_definite_init(&func, &st);
    assert!(diags.is_empty(), "expected no errors, got: {:?}", diags);
}

#[test]
fn test_error_when_loaded_without_store() {
    let func = AmirFunc {
        locals: vec![None],
        blocks: vec![block(0, vec![load(0)], AmirTerminator::Return, &[])],
    };
    let st = SymbolTable::new();
    let diags = check_definite_init(&func, &st);
    assert_eq!(diags.len(), 1);
    assert_eq!(diags[0].code, DiagCode::O008UseBeforeInit);
}

#[test]
fn test_error_on_conditional_init() {
    let st = SymbolTable::new();
    let diags = check_definite_init(&diamond(true, false), &st);
    assert_eq!(diags.len(), 1);
    assert_eq!(diags[0].code, DiagCode::O008UseBeforeInit);
}

#[test]
fn test_no_error_on_both_branches_init() {
    let st = SymbolTable::new();
    let diags = check_definite_init(&diamond(true, true), &st);
    assert!(diags.is_empty(), "expected no errors, got: {:?}", diags);
}

#[test]
fn uninit_diagnostic_names_the_variable() {
    let mut st = SymbolTable::new();
    let global = st.global_scope();
    let x = st.define(global, "x", SymbolKind::Local, Span::new(0, 0)).unwrap();
    let func = AmirFunc {
        locals: vec![Some(x)],
        blocks: vec![block(0, vec![load(0)], AmirTerminator::Return, &[])],
    };
    let diags = check_definite_init(&func, &st);
    assert_eq!(diags.len(), 1);
    assert_eq!(diags[0].message, "use of possibly uninitialized variable `x`");
    assert_eq!(diags[0].notes, vec!["variable `x` may not be initialized on all paths".to_string()]);
    assert_eq!(diags[0].span, Span::new(0, 0));
    assert!(diags[0].labels.is_empty());
    assert!(diags[0].hints.is_empty());
}

#[test]
fn compiler_locals_are_named_as_such() {
    let func = AmirFunc {
        locals: vec![None],
        blocks: vec![block(0, vec![AmirStmt::Destroy(place(0))], AmirTerminator::Return, &[])],
    };
    let diags = check_definite_init(&func, &SymbolTable::new());
    assert_eq!(diags.len(), 1);
    assert_eq!(diags[0].message, "use of possibly uninitialized variable `<compiler local>`");
}

#[test]
fn borrows_and_projected_stores_need_an_initialised_base() {
    let projected = AmirPlace { local: LocalId::from_usize(0), projected: true };
    let func = AmirFunc {
        locals: vec![None, None],
        blocks: vec![block(
            0,
            vec![
                AmirStmt::Store { lhs: projected },
                AmirStmt::Assign { rhs: AmirRvalue::Borrow(place(1)) },
                AmirStmt::Assign { rhs: AmirRvalue::BorrowMut(place(1)) },
                AmirStmt::Assign { rhs: AmirRvalue::Other },
                AmirStmt::Call,
                AmirStmt::StorageLive(LocalId::from_usize(1)),
            ],
            AmirTerminator::Return,
            &[],
        )],
    };
    let diags = check_definite_init(&func, &SymbolTable::new());
    assert_eq!(diags.len(), 3);
}

#[test]
fn every_use_of_an_uninitialised_local_is_reported() {
    let func = AmirFunc {
        locals: vec![None],
        blocks: vec![block(0, vec![load(0), load(0), store(0), load(0)], AmirTerminator::Return, &[])],
    };
    assert_eq!(check_definite_init(&func, &SymbolTable::new()).len(), 2);
}

#[test]
fn store_before_a_loop_reaches_its_body() {
    // bb0: store; goto bb1. bb1: branch bb2 / bb3. bb2: load; goto bb1. bb3: return.
    let func = AmirFunc {
        locals: vec![None],
        blocks: vec![
            block(0, vec![store(0)], goto(1), &[]),
            block(1, vec![], branch(2, 3), &[0, 2]),
            block(2, vec![load(0)], goto(1), &[1]),
            block(3, vec![load(0)], AmirTerminator::Return, &[1]),
        ],
    };
    assert!(check_definite_init(&func, &SymbolTable::new()).is_empty());
}

#[test]
fn store_inside_a_loop_does_not_reach_its_exit() {
    let func = AmirFunc {
        locals: vec![None],
        blocks: vec![
            block(0, vec![], goto(1), &[]),
            block(1, vec![], branch(2, 3), &[0, 2]),
            block(2, vec![store(0)], goto(1), &[1]),
            block(3, vec![load(0)], AmirTerminator::Return, &[1]),
        ],
    };
    assert_eq!(check_definite_init(&func, &SymbolTable::new()).len(), 1);
}

#[test]
fn switch_targets_are_followed() {
    let func = AmirFunc {
        locals: vec![None],
        blocks: vec![
            block(
                0,
                vec![store(0)],
                AmirTerminator::SwitchInt {
                    targets: vec![BlockId::from_usize(1)],
                    otherwise: BlockId::from_usize(2),
                },
                &[],
            ),
            block(1, vec![load(0)], AmirTerminator::Unreachable, &[0]),
            block(2, vec![load(0)], AmirTerminator::Return, &[0]),
        ],
    };
    assert!(check_definite_init(&func, &SymbolTable::new()).is_empty());
}

#[test]
fn function_without_locals_has_no_errors() {
    let func = AmirFunc { locals: vec![], blocks: vec![block(0, vec![], AmirTerminator::Return, &[])] };
    assert!(check_definite_init(&func, &SymbolTable::new()).is_empty());
}

#[test]
fn block_without_predecessors_starts_uninitialised() {
    // bb0 stores and returns; bb1 is never jumped to and loads.
    let func = AmirFunc {
        locals: vec![None],
        blocks: vec![
            block(0, vec![store(0)], AmirTerminator::Return, &[]),
            block(1, vec![load(0)], AmirTerminator::Return, &[]),
        ],
    };
    assert_eq!(check_definite_init(&func, &SymbolTable::new()).len(), 1);
}
