use arandu_semantics::ar_type::ArType;
use arandu_semantics::constraints::{Constraint, ConstraintOrigin};
use arandu_semantics::diagnostics::{DiagCode, Diagnostic, Label};
use arandu_semantics::ids::Span;
use arandu_semantics::primitive::Primitive;
use arandu_semantics::symbol_table::SymbolTable;
use arandu_semantics::type_errors::constraint_to_diagnostic;

fn prim(p: Primitive) -> ArType {
    ArType::Primitive(p)
}

fn sp(a: usize, b: usize) -> Span {
    Span::new(a, b)
}

fn diag(expected: ArType, found: ArType, origin: ConstraintOrigin) -> Diagnostic {
    let st = SymbolTable::new();
    constraint_to_diagnostic(&Constraint { expected, found, origin }, &st)
}

fn label(span: Span, message: &str) -> Label {
    Label { span, message: message.to_string() }
}

fn strings(items: &[&str]) -> Vec<String> {
    items.iter().map(|s| s.to_string()).collect()
}

#[test]
fn assignment_mismatch_shows_the_flow() {
    let d = diag(
        prim(Primitive::Int),
        prim(Primitive::Str),
        ConstraintOrigin::Assignment { lhs_span: sp(1, 2), rhs_span: sp(5, 8) },
    );
    assert_eq!(d.code, DiagCode::T002IncompatibleAssignment);
    assert_eq!(d.message, "incompatible type in assignment: expected 'int', found 'str'");
    assert_eq!(d.span, sp(5, 8));
    assert_eq!(
        d.labels,
        vec![label(sp(1, 2), "type 'int' declared here"), label(sp(5, 8), "value has type 'str'")]
    );
    assert_eq!(
        d.notes,
        strings(&["flow: declaration (int, Span { start: 1, end: 2 }) → value (str, Span { start: 5, end: 8 })"])
    );
    assert_eq!(d.hints, strings(&["convert with 'str as int' or change the declaration type"]));
}

#[test]
fn span_text_matches_debug_output() {
    assert_eq!(format!("{:?}", sp(1, 2)), "Span { start: 1, end: 2 }");
}

#[test]
fn call_argument_mismatch_counts_from_one() {
    let d = diag(
        prim(Primitive::Int),
        prim(Primitive::Bool),
        ConstraintOrigin::CallArg { call_span: sp(0, 10), param_span: sp(20, 25), arg_span: sp(4, 9), arg_index: 1 },
    );
    assert_eq!(d.code, DiagCode::T003IncompatibleCallArg);
    assert_eq!(d.message, "incompatible type in argument 2: expected 'int', found 'bool'");
    assert_eq!(d.span, sp(0, 10));
    assert_eq!(
        d.labels,
        vec![label(sp(20, 25), "parameter 2 expects 'int'"), label(sp(4, 9), "argument has type 'bool'")]
    );
    assert_eq!(d.notes, strings(&["flow: argument 2 (bool) → parameter (int expected)"]));
    assert!(d.hints.is_empty());
}

#[test]
fn return_and_branch_mismatches() {
    let d = diag(
        prim(Primitive::Int),
        prim(Primitive::Str),
        ConstraintOrigin::ReturnType { return_span: sp(3, 4), declared_span: sp(1, 2) },
    );
    assert_eq!(d.code, DiagCode::T004IncompatibleReturnType);
    assert_eq!(d.message, "incompatible return type: expected 'int', found 'str'");
    assert_eq!(d.labels, vec![label(sp(1, 2), "return type 'int' declared here"), label(sp(3, 4), "returns 'str'")]);
    assert_eq!(
        d.hints,
        strings(&["convert the return value with 'as int' or change the function's return type"])
    );

    let d = diag(
        prim(Primitive::Int),
        prim(Primitive::Str),
        ConstraintOrigin::IfBranches { then_span: sp(1, 2), else_span: sp(3, 4) },
    );
    assert_eq!(d.code, DiagCode::T007IfBranchMismatch);
    assert_eq!(d.message, "if branches have incompatible types: 'int' and 'str'");
    assert_eq!(d.span, sp(3, 4));

    let d = diag(
        prim(Primitive::Int),
        prim(Primitive::Str),
        ConstraintOrigin::MatchArms { first_span: sp(1, 2), mismatch_span: sp(3, 4), arm_index: 2 },
    );
    assert_eq!(d.code, DiagCode::T008MatchArmMismatch);
    assert_eq!(d.message, "match arm 3 has type 'str', expected 'int'");
    assert_eq!(d.labels, vec![label(sp(1, 2), "first arm has type 'int'"), label(sp(3, 4), "arm 3 has type 'str'")]);
    assert_eq!(d.hints, strings(&["all match arms must have the same type"]));
}

#[test]
fn operator_mismatch_hints() {
    let origin = || ConstraintOrigin::BinaryOp { op_span: sp(2, 3), left_span: sp(0, 1), right_span: sp(4, 5) };
    let d = diag(prim(Primitive::Str), prim(Primitive::Int), origin());
    assert_eq!(d.code, DiagCode::T005OperatorNotApplicable);
    assert_eq!(d.message, "operator not applicable to 'str' and 'int'");
    assert_eq!(d.labels, vec![label(sp(0, 1), "type 'str'"), label(sp(4, 5), "type 'int'")]);
    assert_eq!(d.hints, strings(&["to concatenate with string, use interpolation: \"${value}\""]));

    let d = diag(prim(Primitive::Int), prim(Primitive::Float), origin());
    assert_eq!(d.hints, strings(&["convert explicitly: 'value as float'"]));

    let d = diag(prim(Primitive::Bool), prim(Primitive::Bool), origin());
    assert!(d.hints.is_empty());

    let d = diag(
        prim(Primitive::Bool),
        prim(Primitive::Str),
        ConstraintOrigin::UnaryOp { op_span: sp(0, 1), operand_span: sp(1, 4) },
    );
    assert_eq!(d.message, "operator not applicable to 'str'");
    assert_eq!(d.labels, vec![label(sp(1, 4), "type 'str'")]);
}

#[test]
fn condition_not_bool_suggests_a_comparison() {
    let d = diag(prim(Primitive::Bool), prim(Primitive::Int), ConstraintOrigin::Condition { span: sp(7, 9) });
    assert_eq!(d.code, DiagCode::T009ConditionNotBool);
    assert_eq!(d.message, "condition must be 'bool', found 'int'");
    assert_eq!(d.labels, vec![label(sp(7, 9), "type 'int' is not bool")]);
    assert_eq!(d.hints, strings(&["use explicit comparison: 'value != 0'"]));
}

#[test]
fn field_set_and_cast_mismatches() {
    let d = diag(
        prim(Primitive::Int),
        prim(Primitive::Str),
        ConstraintOrigin::FieldInit {
            struct_span: sp(0, 20),
            field_name: "age".to_string(),
            field_span: sp(2, 5),
            value_span: sp(7, 12),
        },
    );
    assert_eq!(d.code, DiagCode::T002IncompatibleAssignment);
    assert_eq!(d.message, "incompatible type for field 'age': expected 'int', found 'str'");
    assert_eq!(d.labels, vec![label(sp(2, 5), "field 'age' has type 'int'"), label(sp(7, 12), "value has type 'str'")]);

    let d = diag(
        prim(Primitive::Int),
        prim(Primitive::Str),
        ConstraintOrigin::SetTarget { place_span: sp(0, 1), value_span: sp(4, 6) },
    );
    assert_eq!(d.message, "incompatible type in set: expected 'int', found 'str'");
    assert_eq!(d.span, sp(4, 6));

    let d = diag(
        prim(Primitive::Int),
        prim(Primitive::Str),
        ConstraintOrigin::CastExpr { expr_span: sp(0, 1), target_span: sp(5, 8) },
    );
    assert_eq!(d.code, DiagCode::T010InvalidCast);
    assert_eq!(d.message, "invalid cast from 'str' to 'int'");
    assert_eq!(d.labels, vec![label(sp(0, 1), "expression has type 'str'"), label(sp(5, 8), "cast to 'int' is not possible")]);
}

#[test]
fn widening_try_index_and_field_errors() {
    let d = diag(
        prim(Primitive::I64),
        prim(Primitive::I32),
        ConstraintOrigin::ImplicitWidening { source_span: sp(0, 1), target_span: sp(2, 3) },
    );
    assert_eq!(d.code, DiagCode::T015ImplicitWidening);
    assert_eq!(d.message, "implicit widening from 'i32' to 'i64' is not allowed");
    assert_eq!(d.hints, strings(&["use explicit conversion: 'value as i64'"]));

    let d = diag(prim(Primitive::Int), prim(Primitive::Int), ConstraintOrigin::TryInvalid { span: sp(1, 2) });
    assert_eq!(d.code, DiagCode::T016TryInvalid);
    assert_eq!(d.message, "the '?' operator can only be applied to a Result tuple, found 'int'");

    let base = diag(
        prim(Primitive::Int),
        prim(Primitive::Str),
        ConstraintOrigin::InvalidIndex { base_span: sp(0, 1), index_span: sp(2, 3), is_base_error: true },
    );
    assert_eq!(base.message, "type 'int' cannot be indexed");
    assert_eq!(base.labels, vec![label(sp(0, 1), "this has type 'int', expected array or slice")]);
    let index = diag(
        prim(Primitive::Int),
        prim(Primitive::Str),
        ConstraintOrigin::InvalidIndex { base_span: sp(0, 1), index_span: sp(2, 3), is_base_error: false },
    );
    assert_eq!(index.code, DiagCode::T017InvalidIndex);
    assert_eq!(index.message, "index must be of type 'int', found 'str'");
    assert_eq!(index.span, sp(2, 3));

    let d = diag(
        prim(Primitive::Str),
        prim(Primitive::Str),
        ConstraintOrigin::UndefinedField { base_span: sp(0, 1), field_span: sp(2, 3), field_name: "len".to_string() },
    );
    assert_eq!(d.code, DiagCode::T018UndefinedField);
    assert_eq!(d.message, "no field 'len' on type 'str'");
    assert_eq!(d.labels, vec![label(sp(0, 1), "this has type 'str'"), label(sp(2, 3), "unknown field")]);
}
