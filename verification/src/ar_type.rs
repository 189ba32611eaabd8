use vstd::prelude::*;

use crate::ids::SymbolId;
use crate::primitive::{Primitive, spec_is_float, spec_is_integer, spec_is_numeric};

verus! {

/// The type checker's representation of a type.
#[derive(Debug, PartialEq, Eq, Hash)]
pub enum ArType {
    /// Primitive types: int, float, bool, str, ...
    Primitive(Primitive),
    /// Named type with optional generic arguments: User, List<int>
    Named(SymbolId, Vec<ArType>),
    /// Function type: func(int, str) bool
    Func(Vec<ArType>, Box<ArType>),
    /// Nullable wrapper: str?
    Nullable(Box<ArType>),
    /// Slice type: []int
    Slice(Box<ArType>),
    /// Fixed-size array: [4]float
    Array(u64, Box<ArType>),
    /// Pointer type: ptr[Vec2]
    Ptr(Box<ArType>),
    /// Multi-value tuple
    Tuple(Vec<ArType>),
    /// `Result<T, E>`
    Result(Box<ArType>, Box<ArType>),
    /// `Option<T>`
    Option(Box<ArType>),
    /// The `Err` type of the grammar
    ErrType,
    /// Result of a function with no return type
    Void,
    /// An integer literal not yet given a concrete type
    IntLiteral,
    /// A float literal not yet given a concrete type
    FloatLiteral,
    /// The poison type: operations on it never report new errors
    Error,
}

/// The payload an enum variant carries: nothing, or a tuple of types.
#[derive(Debug, Clone)]
pub enum EnumPayloadShape {
    Unit,
    Tuple(Vec<ArType>),
}

/// The mathematical model of an `ArType`: the same tree, with sequences
/// in place of vectors.
pub enum TyView {
    Primitive(Primitive),
    Named(SymbolId, Seq<TyView>),
    Func(Seq<TyView>, Box<TyView>),
    Nullable(Box<TyView>),
    Slice(Box<TyView>),
    Array(u64, Box<TyView>),
    Ptr(Box<TyView>),
    Tuple(Seq<TyView>),
    Result(Box<TyView>, Box<TyView>),
    Option(Box<TyView>),
    ErrType,
    Void,
    IntLiteral,
    FloatLiteral,
    Error,
}

/// The model of a type.
pub open spec fn ty_view(t: ArType) -> TyView
    decreases t,
{
    match t {
        ArType::Primitive(p) => TyView::Primitive(p),
        ArType::Named(id, args) => TyView::Named(id, tys_view(args@)),
        ArType::Func(params, ret) => TyView::Func(tys_view(params@), Box::new(ty_view(*ret))),
        ArType::Nullable(inner) => TyView::Nullable(Box::new(ty_view(*inner))),
        ArType::Slice(inner) => TyView::Slice(Box::new(ty_view(*inner))),
        ArType::Array(n, inner) => TyView::Array(n, Box::new(ty_view(*inner))),
        ArType::Ptr(inner) => TyView::Ptr(Box::new(ty_view(*inner))),
        ArType::Tuple(items) => TyView::Tuple(tys_view(items@)),
        ArType::Result(ok, err) => TyView::Result(Box::new(ty_view(*ok)), Box::new(ty_view(*err))),
        ArType::Option(inner) => TyView::Option(Box::new(ty_view(*inner))),
        ArType::ErrType => TyView::ErrType,
        ArType::Void => TyView::Void,
        ArType::IntLiteral => TyView::IntLiteral,
        ArType::FloatLiteral => TyView::FloatLiteral,
        ArType::Error => TyView::Error,
    }
}

/// The models of a list of types, element for element.
pub open spec fn tys_view(s: Seq<ArType>) -> Seq<TyView>
    decreases s,
{
    Seq::new(s.len(), |i: int| if 0 <= i < s.len() { ty_view(s[i]) } else { TyView::Error })
}

impl View for ArType {
    type V = TyView;

    open spec fn view(&self) -> TyView {
        ty_view(*self)
    }
}

pub open spec fn spec_ty_is_numeric(t: TyView) -> bool {
    match t {
        TyView::Primitive(p) => spec_is_numeric(p),
        TyView::IntLiteral | TyView::FloatLiteral => true,
        _ => false,
    }
}

pub open spec fn spec_ty_is_integer(t: TyView) -> bool {
    match t {
        TyView::Primitive(p) => spec_is_integer(p),
        TyView::IntLiteral => true,
        _ => false,
    }
}

pub open spec fn spec_ty_is_float(t: TyView) -> bool {
    match t {
        TyView::Primitive(p) => spec_is_float(p),
        TyView::FloatLiteral => true,
        _ => false,
    }
}

pub open spec fn spec_ty_is_literal(t: TyView) -> bool {
    t is IntLiteral || t is FloatLiteral
}

/// Which constructor a type is built with, as a number.
pub open spec fn ty_head(t: TyView) -> int {
    match t {
        TyView::Primitive(_) => 0,
        TyView::Named(_, _) => 1,
        TyView::Func(_, _) => 2,
        TyView::Nullable(_) => 3,
        TyView::Slice(_) => 4,
        TyView::Array(_, _) => 5,
        TyView::Ptr(_) => 6,
        TyView::Tuple(_) => 7,
        TyView::Result(_, _) => 8,
        TyView::Option(_) => 9,
        TyView::ErrType => 10,
        TyView::Void => 11,
        TyView::IntLiteral => 12,
        TyView::FloatLiteral => 13,
        TyView::Error => 14,
    }
}

/// What an unresolved literal becomes without a context type.
pub open spec fn spec_default_literal(t: TyView) -> TyView {
    match t {
        TyView::IntLiteral => TyView::Primitive(Primitive::Int),
        TyView::FloatLiteral => TyView::Primitive(Primitive::Float),
        other => other,
    }
}

/// Whether the literal type `lit` takes on the type `target`.
pub open spec fn spec_literal_absorbs(lit: TyView, target: TyView) -> bool {
    match (lit, target) {
        (TyView::IntLiteral, TyView::Primitive(p)) => spec_is_numeric(p),
        (TyView::FloatLiteral, TyView::Primitive(p)) => spec_is_float(p),
        _ => false,
    }
}

impl ArType {
    pub fn is_error(&self) -> (r: bool)
        ensures
            r == (self@ is Error),
    {
        match self {
            ArType::Error => true,
            _ => false,
        }
    }

    pub fn is_numeric(&self) -> (r: bool)
        ensures
            r == spec_ty_is_numeric(self@),
    {
        match self {
            ArType::Primitive(p) => p.is_numeric(),
            ArType::IntLiteral | ArType::FloatLiteral => true,
            _ => false,
        }
    }

    pub fn is_integer(&self) -> (r: bool)
        ensures
            r == spec_ty_is_integer(self@),
    {
        match self {
            ArType::Primitive(p) => p.is_integer(),
            ArType::IntLiteral => true,
            _ => false,
        }
    }

    pub fn is_float(&self) -> (r: bool)
        ensures
            r == spec_ty_is_float(self@),
    {
        match self {
            ArType::Primitive(p) => p.is_float(),
            ArType::FloatLiteral => true,
            _ => false,
        }
    }

    pub fn is_literal(&self) -> (r: bool)
        ensures
            r == spec_ty_is_literal(self@),
    {
        match self {
            ArType::IntLiteral | ArType::FloatLiteral => true,
            _ => false,
        }
    }

    pub fn default_literal(self) -> (r: ArType)
        ensures
            r@ == spec_default_literal(self@),
    {
        match self {
            ArType::IntLiteral => ArType::Primitive(Primitive::Int),
            ArType::FloatLiteral => ArType::Primitive(Primitive::Float),
            other => other,
        }
    }

    pub fn literal_absorbs(&self, target: &ArType) -> (r: bool)
        ensures
            r == spec_literal_absorbs(self@, target@),
    {
        match (self, target) {
            (ArType::IntLiteral, ArType::Primitive(p)) => p.is_numeric(),
            (ArType::FloatLiteral, ArType::Primitive(p)) => p.is_float(),
            _ => false,
        }
    }

    /// A copy of this type, node for node.
    pub fn duplicate(&self) -> (r: ArType)
        ensures
            r@ == self@,
        decreases self,
    {
        match self {
            ArType::Primitive(p) => {
                let q: Primitive = *p;
                ArType::Primitive(q)
            },
            ArType::Named(id, args) => ArType::Named(*id, duplicate_all(args)),
            ArType::Func(params, ret) => ArType::Func(
                duplicate_all(params),
                Box::new((**ret).duplicate()),
            ),
            ArType::Nullable(inner) => ArType::Nullable(Box::new((**inner).duplicate())),
            ArType::Slice(inner) => ArType::Slice(Box::new((**inner).duplicate())),
            ArType::Array(n, inner) => ArType::Array(*n, Box::new((**inner).duplicate())),
            ArType::Ptr(inner) => ArType::Ptr(Box::new((**inner).duplicate())),
            ArType::Tuple(items) => ArType::Tuple(duplicate_all(items)),
            ArType::Result(ok, err) => ArType::Result(
                Box::new((**ok).duplicate()),
                Box::new((**err).duplicate()),
            ),
            ArType::Option(inner) => ArType::Option(Box::new((**inner).duplicate())),
            ArType::ErrType => ArType::ErrType,
            ArType::Void => ArType::Void,
            ArType::IntLiteral => ArType::IntLiteral,
            ArType::FloatLiteral => ArType::FloatLiteral,
            ArType::Error => ArType::Error,
        }
    }
}

impl Clone for ArType {
    fn clone(&self) -> (r: Self)
        ensures
            r@ == self@,
    {
        self.duplicate()
    }
}

/// A copy of a list of types, element for element.
pub fn duplicate_all(items: &Vec<ArType>) -> (r: Vec<ArType>)
    ensures
        tys_view(r@) == tys_view(items@),
    decreases items,
{
    let mut out: Vec<ArType> = Vec::new();
    let mut i: usize = 0;
    while i < items.len()
        invariant
            i <= items.len(),
            out@.len() == i,
            forall|j: int| 0 <= j < i ==> out@[j]@ == items@[j]@,
        decreases items.len() - i,
    {
        assert(decreases_to!(items => items@[i as int]));
        out.push(items[i].duplicate());
        i += 1;
    }
    assert(tys_view(out@) =~= tys_view(items@));
    out
}

} // verus!
