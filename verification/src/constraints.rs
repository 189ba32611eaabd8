use vstd::prelude::*;

use crate::ar_type::ArType;
use crate::ids::Span;

verus! {

/// Where a type requirement came from, with the places a diagnostic
/// points at.
#[derive(Debug, Clone, PartialEq, Eq)]
pub enum ConstraintOrigin {
    Assignment { lhs_span: Span, rhs_span: Span },
    CallArg { call_span: Span, param_span: Span, arg_span: Span, arg_index: usize },
    ReturnType { return_span: Span, declared_span: Span },
    IfBranches { then_span: Span, else_span: Span },
    MatchArms { first_span: Span, mismatch_span: Span, arm_index: usize },
    BinaryOp { op_span: Span, left_span: Span, right_span: Span },
    UnaryOp { op_span: Span, operand_span: Span },
    Condition { span: Span },
    FieldInit { struct_span: Span, field_name: String, field_span: Span, value_span: Span },
    SetTarget { place_span: Span, value_span: Span },
    CastExpr { expr_span: Span, target_span: Span },
    ImplicitWidening { source_span: Span, target_span: Span },
    TryInvalid { span: Span },
    InvalidIndex { base_span: Span, index_span: Span, is_base_error: bool },
    UndefinedField { base_span: Span, field_span: Span, field_name: String },
}

/// A requirement that the type `found` be `expected`, and where it came
/// from.
#[derive(Debug, PartialEq, Eq)]
pub struct Constraint {
    pub expected: ArType,
    pub found: ArType,
    pub origin: ConstraintOrigin,
}

} // verus!
