use vstd::prelude::*;

use crate::ar_type::{
    spec_literal_absorbs, spec_ty_is_literal, spec_ty_is_numeric, ty_head, tys_view, ArType, TyView,
};
use crate::ids::SymbolId;
use crate::primitive::Primitive;

verus! {

/// Pairwise unification of two lists of types of the same length.
pub open spec fn spec_unify_all(xs: Seq<TyView>, ys: Seq<TyView>) -> bool
    decreases xs,
{
    if xs.len() != ys.len() {
        false
    } else if xs.len() == 0 {
        true
    } else {
        spec_unify(xs[0], ys[0]) && spec_unify_all(xs.drop_first(), ys.drop_first())
    }
}

/// Structural type compatibility.
///
/// - `Error` unifies with anything (poison propagation);
/// - `any` unifies with anything;
/// - an integer literal unifies with every numeric primitive, a float
///   literal with every float primitive, and two literals with each other;
/// - named types agree on the symbol and, pairwise, on the arguments;
/// - function types agree on arity, parameters and result;
/// - nullable, slice, pointer, tuple, `Result` and `Option` types agree
///   componentwise, arrays also on their length;
/// - `Err` unifies with `Err` and `void` with `void`;
/// - nothing else unifies.
pub open spec fn spec_unify(a: TyView, b: TyView) -> bool
    decreases a,
{
    if a is Error || b is Error {
        true
    } else if a == TyView::Primitive(Primitive::Any) || b == TyView::Primitive(Primitive::Any) {
        true
    } else if spec_literal_absorbs(a, b) || spec_literal_absorbs(b, a) {
        true
    } else if spec_ty_is_literal(a) && spec_ty_is_literal(b) {
        true
    } else {
        match (a, b) {
            (TyView::Primitive(pa), TyView::Primitive(pb)) => pa == pb,
            (TyView::Named(ia, xa), TyView::Named(ib, xb)) => ia == ib && spec_unify_all(xa, xb),
            (TyView::Func(pa, ra), TyView::Func(pb, rb)) => spec_unify_all(pa, pb) && spec_unify(
                *ra,
                *rb,
            ),
            (TyView::Nullable(x), TyView::Nullable(y)) => spec_unify(*x, *y),
            (TyView::Slice(x), TyView::Slice(y)) => spec_unify(*x, *y),
            (TyView::Array(n, x), TyView::Array(m, y)) => n == m && spec_unify(*x, *y),
            (TyView::Ptr(x), TyView::Ptr(y)) => spec_unify(*x, *y),
            (TyView::Tuple(xs), TyView::Tuple(ys)) => spec_unify_all(xs, ys),
            (TyView::Result(oa, ea), TyView::Result(ob, eb)) => spec_unify(*oa, *ob) && spec_unify(
                *ea,
                *eb,
            ),
            (TyView::Option(x), TyView::Option(y)) => spec_unify(*x, *y),
            (TyView::ErrType, TyView::ErrType) => true,
            (TyView::Void, TyView::Void) => true,
            _ => false,
        }
    }
}

/// Whether `t` is the primitive `any`.
fn is_any(t: &ArType) -> (r: bool)
    ensures
        r == (t@ == TyView::Primitive(Primitive::Any)),
{
    match t {
        ArType::Primitive(Primitive::Any) => true,
        _ => false,
    }
}

/// Structural type compatibility; see `spec_unify` for the rules.
pub fn unify(a: &ArType, b: &ArType) -> (r: bool)
    ensures
        r == spec_unify(a@, b@),
    decreases a,
{
    if a.is_error() || b.is_error() {
        return true;
    }
    if is_any(a) || is_any(b) {
        return true;
    }
    if a.is_literal() && a.literal_absorbs(b) {
        return true;
    }
    if b.is_literal() && b.literal_absorbs(a) {
        return true;
    }
    if a.is_literal() && b.is_literal() {
        return true;
    }
    match (a, b) {
        (ArType::Primitive(pa), ArType::Primitive(pb)) => pa.same(*pb),
        (ArType::Named(ia, xa), ArType::Named(ib, xb)) => {
            assert(tys_view(xa@).len() == xa@.len());
            assert(tys_view(xb@).len() == xb@.len());
            assert(a@ == TyView::Named(*ia, tys_view(xa@)));
            assert(b@ == TyView::Named(*ib, tys_view(xb@)));
            let r = *ia == *ib && xa.len() == xb.len() && unify_all(xa, xb);
            assert(r == spec_unify(a@, b@));
            r
        },
        (ArType::Func(pa, ra), ArType::Func(pb, rb)) => {
            assert(tys_view(pa@).len() == pa@.len());
            assert(tys_view(pb@).len() == pb@.len());
            let r = pa.len() == pb.len() && unify_all(pa, pb) && unify(&**ra, &**rb);
            assert(r == spec_unify(a@, b@));
            r
        },
        (ArType::Nullable(x), ArType::Nullable(y)) => unify(&**x, &**y),
        (ArType::Slice(x), ArType::Slice(y)) => unify(&**x, &**y),
        (ArType::Array(n, x), ArType::Array(m, y)) => *n == *m && unify(&**x, &**y),
        (ArType::Ptr(x), ArType::Ptr(y)) => unify(&**x, &**y),
        (ArType::Tuple(xs), ArType::Tuple(ys)) => {
            assert(tys_view(xs@).len() == xs@.len());
            assert(tys_view(ys@).len() == ys@.len());
            assert(a@ == TyView::Tuple(tys_view(xs@)));
            assert(b@ == TyView::Tuple(tys_view(ys@)));
            let r = xs.len() == ys.len() && unify_all(xs, ys);
            assert(r == spec_unify_all(tys_view(xs@), tys_view(ys@)));
            assert(r == spec_unify(a@, b@));
            r
        },
        (ArType::Result(oa, ea), ArType::Result(ob, eb)) => unify(&**oa, &**ob) && unify(&**ea, &**eb),
        (ArType::Option(x), ArType::Option(y)) => unify(&**x, &**y),
        (ArType::ErrType, ArType::ErrType) => true,
        (ArType::Void, ArType::Void) => true,
        _ => false,
    }
}

/// Pairwise unification of two equally long lists of types.
fn unify_all(xs: &Vec<ArType>, ys: &Vec<ArType>) -> (r: bool)
    requires
        xs.len() == ys.len(),
    ensures
        r == spec_unify_all(tys_view(xs@), tys_view(ys@)),
    decreases xs,
{
    let ghost vx = tys_view(xs@);
    let ghost vy = tys_view(ys@);
    let mut i: usize = 0;
    assert(vx.skip(0) =~= vx);
    assert(vy.skip(0) =~= vy);
    while i < xs.len()
        invariant
            i <= xs.len(),
            xs.len() == ys.len(),
            vx == tys_view(xs@),
            vy == tys_view(ys@),
            vx.len() == xs.len(),
            vy.len() == ys.len(),
            spec_unify_all(vx, vy) == spec_unify_all(vx.skip(i as int), vy.skip(i as int)),
        decreases xs.len() - i,
    {
        assert(decreases_to!(xs => xs@[i as int]));
        let ok = unify(&xs[i], &ys[i]);
        assert(vx.skip(i as int)[0] == vx[i as int]);
        assert(vy.skip(i as int)[0] == vy[i as int]);
        assert(vx.skip(i as int).drop_first() =~= vx.skip(i + 1));
        assert(vy.skip(i as int).drop_first() =~= vy.skip(i + 1));
        if !ok {
            return false;
        }
        i += 1;
    }
    true
}

/// The type of a binary operation whose operands may be unresolved
/// literals: a literal yields to a concrete operand, two integer literals
/// give `int`, any other pair of literals gives `float`, and two concrete
/// operands give the left one.
pub open spec fn spec_resolve_literal_pair(a: TyView, b: TyView) -> TyView {
    if spec_ty_is_literal(a) && !spec_ty_is_literal(b) {
        b
    } else if spec_ty_is_literal(b) && !spec_ty_is_literal(a) {
        a
    } else if a is IntLiteral && b is IntLiteral {
        TyView::Primitive(Primitive::Int)
    } else if spec_ty_is_literal(a) && spec_ty_is_literal(b) {
        TyView::Primitive(Primitive::Float)
    } else {
        a
    }
}

pub fn resolve_literal_pair(a: &ArType, b: &ArType) -> (r: ArType)
    ensures
        r@ == spec_resolve_literal_pair(a@, b@),
{
    match (a, b) {
        (ArType::IntLiteral, ArType::IntLiteral) => ArType::Primitive(Primitive::Int),
        (ArType::FloatLiteral, ArType::FloatLiteral) => ArType::Primitive(Primitive::Float),
        (ArType::IntLiteral, ArType::FloatLiteral) | (ArType::FloatLiteral, ArType::IntLiteral) => {
            ArType::Primitive(Primitive::Float)
        },
        (ArType::IntLiteral, other) | (ArType::FloatLiteral, other) => other.duplicate(),
        (other, ArType::IntLiteral) | (other, ArType::FloatLiteral) => other.duplicate(),
        _ => a.duplicate(),
    }
}

/// Element compatibility inside an array literal: `unify`, except that
/// integer and float literals do not mix.
pub open spec fn spec_array_elements_compatible(a: TyView, b: TyView) -> bool {
    if (a is IntLiteral && b is FloatLiteral) || (a is FloatLiteral && b is IntLiteral) {
        false
    } else {
        spec_unify(a, b)
    }
}

pub fn array_element_types_compatible(a: &ArType, b: &ArType) -> (r: bool)
    ensures
        r == spec_array_elements_compatible(a@, b@),
{
    match (a, b) {
        (ArType::IntLiteral, ArType::FloatLiteral) | (ArType::FloatLiteral, ArType::IntLiteral) => {
            false
        },
        _ => unify(a, b),
    }
}

/// Whether a value of type `found` may be cast to `target`: when either is
/// the poison type, when they unify, or when both are numeric.
pub open spec fn spec_cast_compatible(found: TyView, target: TyView) -> bool {
    found is Error || target is Error || spec_unify(found, target) || (spec_ty_is_numeric(found)
        && spec_ty_is_numeric(target))
}

pub fn cast_types_compatible(found: &ArType, target: &ArType) -> (r: bool)
    ensures
        r == spec_cast_compatible(found@, target@),
{
    if found.is_error() || target.is_error() {
        return true;
    }
    if unify(found, target) {
        return true;
    }
    found.is_numeric() && target.is_numeric()
}

/// Unification does not depend on the order of its arguments.
pub proof fn lemma_unify_symmetric(a: TyView, b: TyView)
    ensures
        spec_unify(a, b) == spec_unify(b, a),
    decreases a,
{
    match (a, b) {
        (TyView::Named(ia, xa), TyView::Named(ib, xb)) => {
            lemma_unify_all_symmetric(xa, xb);
        },
        (TyView::Func(pa, ra), TyView::Func(pb, rb)) => {
            lemma_unify_all_symmetric(pa, pb);
            lemma_unify_symmetric(*ra, *rb);
        },
        (TyView::Nullable(x), TyView::Nullable(y)) => lemma_unify_symmetric(*x, *y),
        (TyView::Slice(x), TyView::Slice(y)) => lemma_unify_symmetric(*x, *y),
        (TyView::Array(n, x), TyView::Array(m, y)) => lemma_unify_symmetric(*x, *y),
        (TyView::Ptr(x), TyView::Ptr(y)) => lemma_unify_symmetric(*x, *y),
        (TyView::Tuple(xs), TyView::Tuple(ys)) => lemma_unify_all_symmetric(xs, ys),
        (TyView::Result(oa, ea), TyView::Result(ob, eb)) => {
            lemma_unify_symmetric(*oa, *ob);
            lemma_unify_symmetric(*ea, *eb);
        },
        (TyView::Option(x), TyView::Option(y)) => lemma_unify_symmetric(*x, *y),
        _ => {},
    }
}

/// Pairwise unification does not depend on the order of its arguments.
pub proof fn lemma_unify_all_symmetric(xs: Seq<TyView>, ys: Seq<TyView>)
    ensures
        spec_unify_all(xs, ys) == spec_unify_all(ys, xs),
    decreases xs,
{
    if xs.len() == ys.len() && xs.len() > 0 {
        lemma_unify_symmetric(xs[0], ys[0]);
        lemma_unify_all_symmetric(xs.drop_first(), ys.drop_first());
    }
}

/// Resolving a pair of operand types never leaves an unresolved literal.
pub proof fn lemma_resolve_literal_pair_concrete(a: TyView, b: TyView)
    ensures
        !spec_ty_is_literal(spec_resolve_literal_pair(a, b)),
{
}

/// Every type unifies with itself.
pub proof fn lemma_unify_reflexive(t: TyView)
    ensures
        spec_unify(t, t),
    decreases t,
{
    match t {
        TyView::Named(_, xs) => lemma_unify_all_reflexive(xs),
        TyView::Func(ps, r) => {
            lemma_unify_all_reflexive(ps);
            lemma_unify_reflexive(*r);
        },
        TyView::Nullable(x) => lemma_unify_reflexive(*x),
        TyView::Slice(x) => lemma_unify_reflexive(*x),
        TyView::Array(_, x) => lemma_unify_reflexive(*x),
        TyView::Ptr(x) => lemma_unify_reflexive(*x),
        TyView::Tuple(xs) => lemma_unify_all_reflexive(xs),
        TyView::Result(o, e) => {
            lemma_unify_reflexive(*o);
            lemma_unify_reflexive(*e);
        },
        TyView::Option(x) => lemma_unify_reflexive(*x),
        _ => {},
    }
}

/// Every list of types unifies with itself pairwise.
pub proof fn lemma_unify_all_reflexive(xs: Seq<TyView>)
    ensures
        spec_unify_all(xs, xs),
    decreases xs,
{
    if xs.len() > 0 {
        lemma_unify_reflexive(xs[0]);
        lemma_unify_all_reflexive(xs.drop_first());
    }
}

/// Pairwise unification holds exactly when the lists are equally long and
/// the types at each position unify.
pub proof fn lemma_unify_all_pointwise(xs: Seq<TyView>, ys: Seq<TyView>)
    ensures
        spec_unify_all(xs, ys) == (xs.len() == ys.len() && forall|i: int|
            0 <= i < xs.len() ==> spec_unify(#[trigger] xs[i], ys[i])),
    decreases xs,
{
    if xs.len() == ys.len() && xs.len() > 0 {
        lemma_unify_all_pointwise(xs.drop_first(), ys.drop_first());
        if spec_unify_all(xs, ys) {
            assert forall|i: int| 0 <= i < xs.len() implies spec_unify(#[trigger] xs[i], ys[i]) by {
                if i > 0 {
                    assert(xs.drop_first()[i - 1] == xs[i]);
                    assert(ys.drop_first()[i - 1] == ys[i]);
                }
            }
        }
        if forall|i: int| 0 <= i < xs.len() ==> spec_unify(#[trigger] xs[i], ys[i]) {
            assert(spec_unify(xs[0], ys[0]));
            assert forall|i: int| 0 <= i < xs.drop_first().len() implies spec_unify(
                #[trigger] xs.drop_first()[i],
                ys.drop_first()[i],
            ) by {
                assert(spec_unify(xs[i + 1], ys[i + 1]));
            }
        }
    }
}

/// Unification of compound types is congruent: two types built with the
/// same wrapper unify exactly when what they wrap unifies (and arrays agree
/// on their length).
pub proof fn lemma_unify_wrappers(x: TyView, y: TyView, n: u64, m: u64)
    ensures
        spec_unify(TyView::Nullable(Box::new(x)), TyView::Nullable(Box::new(y))) == spec_unify(x, y),
        spec_unify(TyView::Slice(Box::new(x)), TyView::Slice(Box::new(y))) == spec_unify(x, y),
        spec_unify(TyView::Ptr(Box::new(x)), TyView::Ptr(Box::new(y))) == spec_unify(x, y),
        spec_unify(TyView::Option(Box::new(x)), TyView::Option(Box::new(y))) == spec_unify(x, y),
        spec_unify(TyView::Array(n, Box::new(x)), TyView::Array(m, Box::new(y))) == (n == m
            && spec_unify(x, y)),
{
}

/// Two `Result` types unify exactly when their success types unify and
/// their error types unify.
pub proof fn lemma_unify_result_types(ok_a: TyView, err_a: TyView, ok_b: TyView, err_b: TyView)
    ensures
        spec_unify(
            TyView::Result(Box::new(ok_a), Box::new(err_a)),
            TyView::Result(Box::new(ok_b), Box::new(err_b)),
        ) == (spec_unify(ok_a, ok_b) && spec_unify(err_a, err_b)),
{
}

/// Tuples, named types and function types unify exactly when they agree
/// on the symbol and the number of components, and their components
/// unify position by position.
pub proof fn lemma_unify_lists(xs: Seq<TyView>, ys: Seq<TyView>, ia: SymbolId, ib: SymbolId, ra: TyView, rb: TyView)
    ensures
        spec_unify(TyView::Tuple(xs), TyView::Tuple(ys)) == (xs.len() == ys.len() && forall|i: int|
            0 <= i < xs.len() ==> spec_unify(#[trigger] xs[i], ys[i])),
        spec_unify(TyView::Named(ia, xs), TyView::Named(ib, ys)) == (ia == ib && xs.len() == ys.len()
            && forall|i: int| 0 <= i < xs.len() ==> spec_unify(#[trigger] xs[i], ys[i])),
        spec_unify(TyView::Func(xs, Box::new(ra)), TyView::Func(ys, Box::new(rb))) == (xs.len()
            == ys.len() && (forall|i: int| 0 <= i < xs.len() ==> spec_unify(#[trigger] xs[i], ys[i]))
            && spec_unify(ra, rb)),
{
    lemma_unify_all_pointwise(xs, ys);
}

/// Two primitives other than `any` unify only when they are the same.
pub proof fn lemma_unify_primitives(p: Primitive, q: Primitive)
    requires
        p != Primitive::Any,
        q != Primitive::Any,
    ensures
        spec_unify(TyView::Primitive(p), TyView::Primitive(q)) == (p == q),
{
}

/// Types built with different constructors never unify, unless one of
/// them is the poison type, `any`, or an unresolved literal.
pub proof fn lemma_unify_heads_differ(a: TyView, b: TyView)
    requires
        ty_head(a) != ty_head(b),
        !(a is Error),
        !(b is Error),
        a != TyView::Primitive(Primitive::Any),
        b != TyView::Primitive(Primitive::Any),
        !spec_ty_is_literal(a),
        !spec_ty_is_literal(b),
    ensures
        !spec_unify(a, b),
{
}

/// Resolving two literal operands does not depend on their order: two
/// integer literals give `int`, and a pair with a float literal gives
/// `float`. A literal beside a concrete operand takes that operand's type,
/// on either side.
pub proof fn lemma_resolve_literal_pair_laws(a: TyView, b: TyView)
    ensures
        spec_ty_is_literal(a) && spec_ty_is_literal(b) ==> {
            &&& spec_resolve_literal_pair(a, b) == spec_resolve_literal_pair(b, a)
            &&& spec_resolve_literal_pair(a, b) == (if a is FloatLiteral || b is FloatLiteral {
                TyView::Primitive(Primitive::Float)
            } else {
                TyView::Primitive(Primitive::Int)
            })
        },
        spec_ty_is_literal(a) && !spec_ty_is_literal(b) ==> spec_resolve_literal_pair(a, b) == b
            && spec_resolve_literal_pair(b, a) == b,
{
}

/// The poison type and `any` unify with every type, on either side.
pub proof fn lemma_unify_error_and_any(t: TyView)
    ensures
        spec_unify(TyView::Error, t),
        spec_unify(t, TyView::Error),
        spec_unify(TyView::Primitive(Primitive::Any), t),
        spec_unify(t, TyView::Primitive(Primitive::Any)),
{
}

/// An integer literal unifies with the integer and float primitives,
/// `byte` and `any`, and with no other primitive; a float literal with
/// the float primitives and `any` only. Neither unifies with a compound,
/// named or `void` type.
pub proof fn lemma_unify_literals(p: Primitive, t: TyView)
    ensures
        spec_unify(TyView::IntLiteral, TyView::Primitive(p)) == (p == Primitive::Int || p == Primitive::Uint
            || p == Primitive::I8 || p == Primitive::I16 || p == Primitive::I32 || p == Primitive::I64
            || p == Primitive::U8 || p == Primitive::U16 || p == Primitive::U32 || p == Primitive::U64
            || p == Primitive::Byte || p == Primitive::Float || p == Primitive::F32 || p == Primitive::F64
            || p == Primitive::Any),
        spec_unify(TyView::FloatLiteral, TyView::Primitive(p)) == (p == Primitive::Float || p
            == Primitive::F32 || p == Primitive::F64 || p == Primitive::Any),
        spec_unify(TyView::IntLiteral, TyView::FloatLiteral),
        2 <= ty_head(t) <= 11 ==> !spec_unify(TyView::IntLiteral, t) && !spec_unify(TyView::FloatLiteral, t),
        1 == ty_head(t) ==> !spec_unify(TyView::IntLiteral, t) && !spec_unify(TyView::FloatLiteral, t),
{
}

/// Two concrete operand types resolve to the left one.
pub proof fn lemma_resolve_concrete_pair(a: TyView, b: TyView)
    requires
        !spec_ty_is_literal(a),
        !spec_ty_is_literal(b),
    ensures
        spec_resolve_literal_pair(a, b) == a,
{
}

} // verus!
