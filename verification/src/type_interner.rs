use vstd::prelude::*;

use crate::ar_type::{ty_view, tys_view, ArType, TyView};

verus! {

impl ArType {
    /// Whether two types are the same tree.
    pub fn same(&self, other: &ArType) -> (r: bool)
        ensures
            r == (self@ == other@),
        decreases self,
    {
        match (self, other) {
            (ArType::Primitive(a), ArType::Primitive(b)) => a.same(*b),
            (ArType::Named(ia, xa), ArType::Named(ib, xb)) => {
                let r = *ia == *ib && same_all(xa, xb);
                proof {
                    if !r && *ia == *ib {
                        assert(tys_view(xa@) != tys_view(xb@));
                    }
                }
                r
            },
            (ArType::Func(pa, ra), ArType::Func(pb, rb)) => {
                let r = same_all(pa, pb) && (**ra).same(&**rb);
                proof {
                    if !r {
                        if tys_view(pa@) == tys_view(pb@) {
                            assert(ty_view(**ra) != ty_view(**rb));
                        }
                    }
                }
                r
            },
            (ArType::Nullable(x), ArType::Nullable(y)) => (**x).same(&**y),
            (ArType::Slice(x), ArType::Slice(y)) => (**x).same(&**y),
            (ArType::Array(n, x), ArType::Array(m, y)) => *n == *m && (**x).same(&**y),
            (ArType::Ptr(x), ArType::Ptr(y)) => (**x).same(&**y),
            (ArType::Tuple(xs), ArType::Tuple(ys)) => same_all(xs, ys),
            (ArType::Result(oa, ea), ArType::Result(ob, eb)) => (**oa).same(&**ob) && (**ea).same(
                &**eb,
            ),
            (ArType::Option(x), ArType::Option(y)) => (**x).same(&**y),
            (ArType::ErrType, ArType::ErrType) => true,
            (ArType::Void, ArType::Void) => true,
            (ArType::IntLiteral, ArType::IntLiteral) => true,
            (ArType::FloatLiteral, ArType::FloatLiteral) => true,
            (ArType::Error, ArType::Error) => true,
            _ => false,
        }
    }
}

/// Whether two lists of types are the same, element for element.
fn same_all(xs: &Vec<ArType>, ys: &Vec<ArType>) -> (r: bool)
    ensures
        r == (tys_view(xs@) == tys_view(ys@)),
    decreases xs,
{
    let ghost vx = tys_view(xs@);
    let ghost vy = tys_view(ys@);
    if xs.len() != ys.len() {
        assert(vx.len() != vy.len());
        return false;
    }
    let mut i: usize = 0;
    while i < xs.len()
        invariant
            i <= xs.len(),
            xs.len() == ys.len(),
            vx == tys_view(xs@),
            vy == tys_view(ys@),
            vx.len() == xs.len(),
            vy.len() == ys.len(),
            forall|k: int| 0 <= k < i ==> vx[k] == vy[k],
        decreases xs.len() - i,
    {
        assert(decreases_to!(xs => xs@[i as int]));
        if !xs[i].same(&ys[i]) {
            assert(vx[i as int] != vy[i as int]);
            return false;
        }
        i += 1;
    }
    assert(vx =~= vy);
    true
}

/// Identifies an interned type: its index in the interner.
#[derive(Debug, Clone, Copy, PartialEq, Eq, Hash, Structural)]
pub struct TypeId(pub u32);

impl TypeId {
    pub fn from_usize(n: usize) -> (r: TypeId)
        requires
            n <= u32::MAX,
        ensures
            r.0 == n,
    {
        TypeId(n as u32)
    }

    pub fn as_usize(self) -> (r: usize)
        ensures
            r == self.0,
    {
        self.0 as usize
    }
}

/// Stores each distinct type once and names it by a `TypeId`, so that
/// two ids are equal exactly when their types are.
#[derive(Debug)]
pub struct TypeInterner {
    types: Vec<ArType>,
}

impl View for TypeInterner {
    type V = Seq<TyView>;

    /// The interned types, in the order they were first interned.
    closed spec fn view(&self) -> Seq<TyView> {
        tys_view(self.types@)
    }
}

impl TypeInterner {
    /// No type is stored twice, and every id fits in a `u32`.
    pub closed spec fn wf(&self) -> bool {
        &&& self@.len() <= u32::MAX + 1
        &&& forall|i: int, j: int| 0 <= i < j < self@.len() ==> self@[i] != self@[j]
    }

    /// An interner holding no type.
    pub fn new() -> (r: TypeInterner)
        ensures
            r.wf(),
            r@ == Seq::<TyView>::empty(),
    {
        let r = TypeInterner { types: Vec::new() };
        assert(r@ =~= Seq::<TyView>::empty());
        r
    }

    /// The number of distinct types interned.
    pub fn len(&self) -> (r: usize)
        ensures
            r == self@.len(),
    {
        self.types.len()
    }

    /// The id of `ty`: the id it was given before if it was interned
    /// already, else the next free id, under which `ty` is stored.
    pub fn intern(&mut self, ty: ArType) -> (r: TypeId)
        requires
            old(self).wf(),
            old(self)@.contains(ty@) || old(self)@.len() <= u32::MAX,
        ensures
            final(self).wf(),
            r.0 < final(self)@.len(),
            final(self)@[r.0 as int] == ty@,
            old(self)@.contains(ty@) ==> final(self)@ == old(self)@,
            !old(self)@.contains(ty@) ==> final(self)@ == old(self)@.push(ty@),
    {
        let ghost before = self@;
        let mut i: usize = 0;
        while i < self.types.len()
            invariant
                self@ == before,
                self.wf(),
                before.contains(ty@) || before.len() <= u32::MAX,
                self@.len() == self.types@.len(),
                i <= self.types@.len(),
                forall|k: int| 0 <= k < i ==> self@[k] != ty@,
            decreases self.types@.len() - i,
        {
            if self.types[i].same(&ty) {
                assert(before[i as int] == ty@);
                return TypeId::from_usize(i);
            }
            i += 1;
        }
        assert(!before.contains(ty@));
        let id = TypeId::from_usize(self.types.len());
        self.types.push(ty);
        assert(self@ =~= before.push(ty@));
        id
    }

    /// Two ids of the interner are equal exactly when the types they
    /// name are.
    pub proof fn lemma_ids_identify_types(&self, a: int, b: int)
        requires
            self.wf(),
            0 <= a < self@.len(),
            0 <= b < self@.len(),
        ensures
            (self@[a] == self@[b]) == (a == b),
    {
        if a < b {
            assert(self@[a] != self@[b]);
        } else if b < a {
            assert(self@[b] != self@[a]);
        }
    }

    /// The type named by `id`.
    pub fn resolve(&self, id: TypeId) -> (r: &ArType)
        requires
            id.0 < self@.len(),
        ensures
            r@ == self@[id.0 as int],
    {
        &self.types[id.as_usize()]
    }
}

impl Default for TypeInterner {
    fn default() -> (r: Self)
        ensures
            r.wf(),
            r@ == Seq::<TyView>::empty(),
    {
        TypeInterner::new()
    }
}

} // verus!
