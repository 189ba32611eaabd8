use arandu_semantics::ar_type::ArType;
use arandu_semantics::context::TyCtx;
use arandu_semantics::ids::SymbolId;
use arandu_semantics::primitive::Primitive;

#[test]
fn bind_then_lookup() {
    let mut ctx = TyCtx::new();
    assert_eq!(ctx.lookup(SymbolId(1)), None);
    ctx.bind(SymbolId(1), ArType::Primitive(Primitive::Int));
    assert_eq!(ctx.lookup(SymbolId(1)), Some(&ArType::Primitive(Primitive::Int)));
    ctx.bind(SymbolId(1), ArType::Primitive(Primitive::Str));
    assert_eq!(ctx.lookup(SymbolId(1)), Some(&ArType::Primitive(Primitive::Str)));
    assert_eq!(ctx.lookup(SymbolId(2)), None);
}

#[test]
fn return_types_nest() {
    let mut ctx = TyCtx::new();
    assert_eq!(ctx.current_return(), None);
    ctx.push_return(ArType::Void);
    ctx.push_return(ArType::Primitive(Primitive::Bool));
    assert_eq!(ctx.current_return(), Some(&ArType::Primitive(Primitive::Bool)));
    ctx.pop_return();
    assert_eq!(ctx.current_return(), Some(&ArType::Void));
    ctx.pop_return();
    assert_eq!(ctx.current_return(), None);
    ctx.pop_return();
    assert_eq!(ctx.current_return(), None);
}

#[test]
fn loop_depth_counts() {
    let mut ctx = TyCtx::new();
    assert!(!ctx.is_in_loop());
    ctx.enter_loop();
    ctx.enter_loop();
    assert!(ctx.is_in_loop());
    ctx.exit_loop();
    assert!(ctx.is_in_loop());
    ctx.exit_loop();
    assert!(!ctx.is_in_loop());
    ctx.exit_loop();
    assert!(!ctx.is_in_loop());
}

#[test]
fn default_context_is_empty() {
    let ctx = TyCtx::default();
    assert_eq!(ctx.current_return(), None);
    assert!(!ctx.is_in_loop());
    assert_eq!(ctx.lookup(SymbolId(0)), None);
}
