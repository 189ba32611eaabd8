use arandu_semantics::ar_type::ArType;
use arandu_semantics::ids::{Span, SymbolId};
use arandu_semantics::primitive::Primitive;
use arandu_semantics::symbol_table::{SymbolKind, SymbolTable};
use arandu_semantics::unify::{resolve_literal_pair, unify};

fn int_ty() -> ArType {
    ArType::Primitive(Primitive::Int)
}

fn string() -> ArType {
    ArType::Primitive(Primitive::Str)
}

#[test]
fn primitive_names_round_trip() {
    let all = [
        Primitive::Int,
        Primitive::Uint,
        Primitive::Float,
        Primitive::I8,
        Primitive::I16,
        Primitive::I32,
        Primitive::I64,
        Primitive::U8,
        Primitive::U16,
        Primitive::U32,
        Primitive::U64,
        Primitive::F32,
        Primitive::F64,
        Primitive::Bool,
        Primitive::Byte,
        Primitive::Char,
        Primitive::Str,
        Primitive::Any,
    ];
    for p in all {
        assert_eq!(Primitive::from_name(p.as_str()), Some(p));
    }
    assert_eq!(Primitive::from_name("integer"), None);
    assert_eq!(Primitive::from_name(""), None);
}

#[test]
fn primitive_classes() {
    assert!(Primitive::Byte.is_numeric());
    assert!(Primitive::Byte.is_integer());
    assert!(!Primitive::Byte.is_signed());
    assert!(Primitive::I16.is_signed());
    assert!(Primitive::F32.is_float());
    assert!(!Primitive::F32.is_integer());
    assert!(!Primitive::Bool.is_numeric());
    assert!(!Primitive::Str.is_numeric());
}

#[test]
fn literal_defaults() {
    assert_eq!(ArType::IntLiteral.default_literal(), int_ty());
    assert_eq!(ArType::FloatLiteral.default_literal(), ArType::Primitive(Primitive::Float));
    assert_eq!(string().default_literal(), string());
}

#[test]
fn literal_absorption() {
    assert!(ArType::IntLiteral.literal_absorbs(&ArType::Primitive(Primitive::U8)));
    assert!(ArType::IntLiteral.literal_absorbs(&ArType::Primitive(Primitive::F64)));
    assert!(!ArType::IntLiteral.literal_absorbs(&string()));
    assert!(ArType::FloatLiteral.literal_absorbs(&ArType::Primitive(Primitive::F32)));
    assert!(!ArType::FloatLiteral.literal_absorbs(&int_ty()));
    assert!(!int_ty().literal_absorbs(&int_ty()));
}

#[test]
fn type_classes() {
    assert!(ArType::Error.is_error());
    assert!(int_ty().is_numeric());
    assert!(int_ty().is_integer());
    assert!(ArType::FloatLiteral.is_float());
    assert!(ArType::IntLiteral.is_literal());
    assert!(!int_ty().is_literal());
}

#[test]
fn unify_cases() {
    assert!(unify(&int_ty(), &int_ty()));
    assert!(!unify(&int_ty(), &string()));
    assert!(unify(&ArType::Error, &string()));
    assert!(unify(&string(), &ArType::Primitive(Primitive::Any)));
    assert!(unify(&ArType::IntLiteral, &ArType::Primitive(Primitive::U64)));
    assert!(!unify(&ArType::FloatLiteral, &int_ty()));
    assert!(unify(&ArType::IntLiteral, &ArType::FloatLiteral));
    let list_int = ArType::Named(SymbolId(3), vec![int_ty()]);
    let list_str = ArType::Named(SymbolId(3), vec![string()]);
    assert!(unify(&list_int, &list_int.clone()));
    assert!(!unify(&list_int, &list_str));
    let f1 = ArType::Func(vec![int_ty(), string()], Box::new(ArType::Void));
    let f2 = ArType::Func(vec![int_ty()], Box::new(ArType::Void));
    assert!(!unify(&f1, &f2));
    assert!(unify(&ArType::Array(4, Box::new(int_ty())), &ArType::Array(4, Box::new(int_ty()))));
    assert!(!unify(&ArType::Array(4, Box::new(int_ty())), &ArType::Array(5, Box::new(int_ty()))));
    let res = ArType::Result(Box::new(int_ty()), Box::new(ArType::ErrType));
    assert!(unify(&res, &res.clone()));
    let res_str = ArType::Result(Box::new(string()), Box::new(ArType::ErrType));
    assert!(!unify(&res, &res_str));
    let opt = ArType::Option(Box::new(int_ty()));
    assert!(unify(&opt, &opt.clone()));
    assert!(unify(&opt, &ArType::Option(Box::new(ArType::IntLiteral))));
    assert!(!unify(&opt, &ArType::Option(Box::new(string()))));
    assert!(!unify(&opt, &res));
}

#[test]
fn unify_is_symmetric_on_samples() {
    let samples = vec![
        int_ty(),
        string(),
        ArType::IntLiteral,
        ArType::FloatLiteral,
        ArType::Error,
        ArType::Void,
        ArType::Nullable(Box::new(int_ty())),
        ArType::Tuple(vec![int_ty(), ArType::IntLiteral]),
        ArType::Tuple(vec![int_ty(), ArType::Primitive(Primitive::F32)]),
    ];
    for a in &samples {
        for b in &samples {
            assert_eq!(unify(a, b), unify(b, a));
        }
    }
}

#[test]
fn literal_pairs() {
    assert_eq!(resolve_literal_pair(&ArType::IntLiteral, &ArType::IntLiteral), int_ty());
    assert_eq!(
        resolve_literal_pair(&ArType::IntLiteral, &ArType::FloatLiteral),
        ArType::Primitive(Primitive::Float)
    );
    assert_eq!(
        resolve_literal_pair(&ArType::FloatLiteral, &ArType::Primitive(Primitive::F32)),
        ArType::Primitive(Primitive::F32)
    );
    assert_eq!(resolve_literal_pair(&string(), &ArType::IntLiteral), string());
    assert_eq!(resolve_literal_pair(&string(), &int_ty()), string());
}

#[test]
fn display_of_types() {
    let mut st = SymbolTable::new();
    let list = st
        .define(st.global_scope(), "List", SymbolKind::Struct, Span::new(0, 4))
        .unwrap();
    assert_eq!(int_ty().display(&st), "int");
    assert_eq!(ArType::Named(list, vec![]).display(&st), "List");
    assert_eq!(ArType::Named(list, vec![int_ty(), string()]).display(&st), "List<int, str>");
    assert_eq!(
        ArType::Func(vec![int_ty(), string()], Box::new(ArType::Primitive(Primitive::Bool))).display(&st),
        "func(int, str) bool"
    );
    assert_eq!(ArType::Func(vec![], Box::new(ArType::Void)).display(&st), "func()");
    assert_eq!(ArType::Nullable(Box::new(string())).display(&st), "str?");
    assert_eq!(ArType::Slice(Box::new(int_ty())).display(&st), "[]int");
    assert_eq!(
        ArType::Array(4, Box::new(ArType::Primitive(Primitive::Float))).display(&st),
        "[4]float"
    );
    assert_eq!(ArType::Array(1024, Box::new(int_ty())).display(&st), "[1024]int");
    assert_eq!(ArType::Ptr(Box::new(int_ty())).display(&st), "ptr[int]");
    assert_eq!(ArType::Tuple(vec![int_ty(), string()]).display(&st), "(int, str)");
    assert_eq!(
        ArType::Result(Box::new(int_ty()), Box::new(ArType::ErrType)).display(&st),
        "Result<int, Err>"
    );
    assert_eq!(ArType::Option(Box::new(int_ty())).display(&st), "Option<int>");
    assert_eq!(ArType::Void.display(&st), "void");
    assert_eq!(ArType::IntLiteral.display(&st), "int");
    assert_eq!(ArType::FloatLiteral.display(&st), "float");
    assert_eq!(ArType::Error.display(&st), "<error>");
}

#[test]
fn mangled_types() {
    let mut st = SymbolTable::new();
    let list = st
        .define(st.global_scope(), "List", SymbolKind::Struct, Span::new(0, 4))
        .unwrap();
    assert_eq!(ArType::Named(list, vec![int_ty()]).mangled(&st), "List_int");
    assert_eq!(ArType::Nullable(Box::new(int_ty())).mangled(&st), "opt_int");
    assert_eq!(ArType::Array(8, Box::new(int_ty())).mangled(&st), "arr8_int");
    assert_eq!(
        ArType::Func(vec![int_ty(), string()], Box::new(ArType::Void)).mangled(&st),
        "fn_int_str_R_void"
    );
    assert_eq!(ArType::Tuple(vec![int_ty(), string()]).mangled(&st), "tup_int_str");
    assert_eq!(
        ArType::Result(Box::new(int_ty()), Box::new(ArType::ErrType)).mangled(&st),
        "res_int_err"
    );
    assert_eq!(ArType::Option(Box::new(int_ty())).mangled(&st), "option_int");
    assert_eq!(ArType::Error.mangled(&st), "error");
}

#[test]
fn structural_sameness() {
    let a = ArType::Named(SymbolId(1), vec![int_ty(), ArType::Nullable(Box::new(string()))]);
    assert!(a.same(&a.clone()));
    assert!(!a.same(&ArType::Named(SymbolId(1), vec![int_ty()])));
    assert!(!a.same(&ArType::Named(SymbolId(2), vec![int_ty(), ArType::Nullable(Box::new(string()))])));
    assert!(!int_ty().same(&string()));
}
