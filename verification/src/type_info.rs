use vstd::prelude::*;

use fxhash::FxHashMap;

use crate::ar_type::{tys_view, ArType, TyView};
use crate::ids::SymbolId;
use crate::type_interner::{TypeId, TypeInterner};

verus! {

/// Identifies an expression of the syntax tree: its index in the tree's
/// expression pool.
#[derive(Debug, Clone, Copy, PartialEq, Eq, Hash, Structural)]
pub struct ExprId(pub u32);

impl ExprId {
    pub fn from_usize(n: usize) -> (r: ExprId)
        requires
            n <= u32::MAX,
        ensures
            r.0 == n,
    {
        ExprId(n as u32)
    }

    pub fn as_usize(self) -> (r: usize)
        ensures
            r == self.0,
    {
        self.0 as usize
    }
}

/// Declared symbol to the id of its type, hashed with `fxhash`.
pub type DeclTypes = FxHashMap<SymbolId, TypeId>;

/// What a declaration-type map holds.
pub uninterp spec fn decl_types_contents(m: DeclTypes) -> Map<SymbolId, TypeId>;

/// The empty declaration-type map.
pub open spec fn no_decl_types() -> Map<SymbolId, TypeId> {
    Map::empty()
}

/// An empty declaration-type map.
///
/// Trusted: `<FxHashMap as Default>::default` builds a map with no entry.
#[verifier::external_body]
fn decl_types_new() -> (r: DeclTypes)
    ensures
        decl_types_contents(r) == no_decl_types(),
{
    FxHashMap::default()
}

/// Records `id` for `symbol`.
///
/// Trusted: `HashMap::insert` replaces the entry of an equal key or adds
/// one; symbol ids are equal when their indices are.
#[verifier::external_body]
fn decl_types_insert(m: &mut DeclTypes, symbol: SymbolId, id: TypeId)
    ensures
        decl_types_contents(*final(m)) == decl_types_contents(*old(m)).insert(symbol, id),
{
    m.insert(symbol, id);
}

/// The type id recorded for `symbol`, if any.
///
/// Trusted: `HashMap::get` finds the entry whose key equals `symbol`.
#[verifier::external_body]
fn decl_types_get(m: &DeclTypes, symbol: SymbolId) -> (r: Option<TypeId>)
    ensures
        r == (if decl_types_contents(*m).contains_key(symbol) {
            Some(decl_types_contents(*m)[symbol])
        } else {
            None
        }),
{
    m.get(&symbol).copied()
}

/// What an enum variant carries.
#[derive(Debug)]
pub enum EnumPayloadShape {
    /// Nothing.
    Unit,
    /// A tuple of values of these types.
    Tuple(Vec<ArType>),
}

/// The payload types of a variant: none for a unit variant.
pub open spec fn shape_view(s: EnumPayloadShape) -> Option<Seq<TyView>> {
    match s {
        EnumPayloadShape::Unit => None,
        EnumPayloadShape::Tuple(tys) => Some(tys_view(tys@)),
    }
}

/// Enum variant symbol to its enum and payload, hashed with `fxhash`.
pub type EnumVariants = FxHashMap<SymbolId, (SymbolId, EnumPayloadShape)>;

/// What an enum-variant map holds: for each variant, its enum and the
/// view of its payload.
pub uninterp spec fn enum_variants_contents(m: EnumVariants) -> Map<SymbolId, (SymbolId, Option<Seq<TyView>>)>;

/// The empty enum-variant map.
pub open spec fn no_enum_variants() -> Map<SymbolId, (SymbolId, Option<Seq<TyView>>)> {
    Map::empty()
}

/// An empty enum-variant map.
///
/// Trusted: `<FxHashMap as Default>::default` builds a map with no entry.
#[verifier::external_body]
fn enum_variants_new() -> (r: EnumVariants)
    ensures
        enum_variants_contents(r) == no_enum_variants(),
{
    FxHashMap::default()
}

/// Records that `variant` belongs to `parent` and carries `shape`.
///
/// Trusted: `HashMap::insert` replaces the entry of an equal key or adds
/// one; symbol ids are equal when their indices are.
#[verifier::external_body]
fn enum_variants_insert(m: &mut EnumVariants, variant: SymbolId, parent: SymbolId, shape: EnumPayloadShape)
    ensures
        enum_variants_contents(*final(m)) == enum_variants_contents(*old(m)).insert(
            variant,
            (parent, shape_view(shape)),
        ),
{
    m.insert(variant, (parent, shape));
}

/// The enum and payload recorded for `variant`, if any.
///
/// Trusted: `HashMap::get` finds the entry whose key equals `variant`.
#[verifier::external_body]
fn enum_variants_get(m: &EnumVariants, variant: SymbolId) -> (r: Option<&(SymbolId, EnumPayloadShape)>)
    ensures
        match r {
            Some(e) => enum_variants_contents(*m).contains_key(variant) && enum_variants_contents(*m)[variant]
                == (e.0, shape_view(e.1)),
            None => !enum_variants_contents(*m).contains_key(variant),
        },
{
    m.get(&variant)
}

/// Each variant of the map with its enum, in the map's iteration order.
///
/// Trusted: `HashMap::iter` yields each entry exactly once; the order
/// depends on the hashes and is left open.
#[verifier::external_body]
fn enum_variants_entries(m: &EnumVariants) -> (r: Vec<(SymbolId, SymbolId)>)
    ensures
        forall|i: int, j: int| 0 <= i < j < r@.len() ==> r@[i].0 != r@[j].0,
        forall|i: int|
            0 <= i < r@.len() ==> enum_variants_contents(*m).contains_key(#[trigger] r@[i].0)
                && enum_variants_contents(*m)[r@[i].0].0 == r@[i].1,
        forall|v: SymbolId|
            enum_variants_contents(*m).contains_key(v) ==> exists|i: int|
                0 <= i < r@.len() && #[trigger] r@[i].0 == v,
{
    m.iter().map(|(variant, entry)| (*variant, entry.0)).collect()
}

/// The types the checker found: for each expression and each declared
/// symbol, an interned type.
#[derive(Debug)]
pub struct TypeInfo {
    type_interner: TypeInterner,
    expr_types: Vec<Option<TypeId>>,
    decl_types: DeclTypes,
    enum_variants: EnumVariants,
}

impl TypeInfo {
    /// The interned types.
    pub closed spec fn types(&self) -> Seq<TyView> {
        self.type_interner@
    }

    /// The type recorded for the expression with index `e`, if any.
    pub closed spec fn expr_type_of(&self, e: int) -> Option<TyView> {
        if 0 <= e < self.expr_types@.len() {
            match self.expr_types@[e] {
                Some(id) => Some(self.type_interner@[id.0 as int]),
                None => None,
            }
        } else {
            None
        }
    }

    /// The type recorded for `symbol`, if any.
    pub closed spec fn decl_type_of(&self, symbol: SymbolId) -> Option<TyView> {
        let m = decl_types_contents(self.decl_types);
        if m.contains_key(symbol) {
            Some(self.type_interner@[m[symbol].0 as int])
        } else {
            None
        }
    }

    /// For each enum variant recorded, its enum and the types of its payload
    /// (none for a unit variant).
    pub closed spec fn enum_variant_table(&self) -> Map<SymbolId, (SymbolId, Option<Seq<TyView>>)> {
        enum_variants_contents(self.enum_variants)
    }

    /// The interner is well formed and every recorded id names one of its
    /// types.
    pub closed spec fn wf(&self) -> bool {
        let n = self.type_interner@.len();
        &&& self.type_interner.wf()
        &&& forall|e: int|
            0 <= e < self.expr_types@.len() ==> match #[trigger] self.expr_types@[e] {
                Some(id) => id.0 < n,
                None => true,
            }
        &&& forall|s: SymbolId|
            #[trigger] decl_types_contents(self.decl_types).contains_key(s) ==> decl_types_contents(
                self.decl_types,
            )[s].0 < n
    }

    /// Nothing recorded.
    pub fn new() -> (r: TypeInfo)
        ensures
            r.wf(),
            r.types() == Seq::<TyView>::empty(),
            forall|e: int| #[trigger] r.expr_type_of(e) is None,
            forall|s: SymbolId| #[trigger] r.decl_type_of(s) is None,
            r.enum_variant_table() == no_enum_variants(),
    {
        TypeInfo {
            type_interner: TypeInterner::new(),
            expr_types: Vec::new(),
            decl_types: decl_types_new(),
            enum_variants: enum_variants_new(),
        }
    }

    /// Records `ty` as the type of `expr`, replacing any earlier record, and
    /// returns its interned id.
    pub fn record_expr_type(&mut self, expr: ExprId, ty: ArType) -> (r: TypeId)
        requires
            old(self).wf(),
            old(self).types().contains(ty@) || old(self).types().len() <= u32::MAX,
        ensures
            final(self).wf(),
            r.0 < final(self).types().len(),
            final(self).types()[r.0 as int] == ty@,
            old(self).types().contains(ty@) ==> final(self).types() == old(self).types(),
            !old(self).types().contains(ty@) ==> final(self).types() == old(self).types().push(ty@),
            final(self).expr_type_of(expr.0 as int) == Some(ty@),
            forall|e: int| e != expr.0 ==> #[trigger] final(self).expr_type_of(e) == old(self).expr_type_of(e),
            forall|s: SymbolId| #[trigger] final(self).decl_type_of(s) == old(self).decl_type_of(s),
            final(self).enum_variant_table() == old(self).enum_variant_table(),
    {
        let ghost before = self.type_interner@;
        let id = self.type_interner.intern(ty);
        let idx = expr.as_usize();
        let ghost old_exprs = self.expr_types@;
        let ghost mid = self.type_interner@;
        while self.expr_types.len() <= idx
            invariant
                self.type_interner@ == mid,
                self.type_interner.wf(),
                decl_types_contents(self.decl_types) == decl_types_contents(old(self).decl_types),
                enum_variants_contents(self.enum_variants) == enum_variants_contents(old(self).enum_variants),
                old_exprs == old(self).expr_types@,
                self.expr_types@.len() >= old_exprs.len(),
                forall|e: int| 0 <= e < old_exprs.len() ==> #[trigger] self.expr_types@[e] == old_exprs[e],
                forall|e: int| old_exprs.len() <= e < self.expr_types@.len() ==> #[trigger] self.expr_types@[e] is None,
                self.expr_types@.len() <= idx + 1 || self.expr_types@.len() == old_exprs.len(),
            decreases idx + 1 - self.expr_types@.len(),
        {
            self.expr_types.push(None);
        }
        self.expr_types.set(idx, Some(id));
        proof {
            let n = self.type_interner@.len();
            assert forall|i: int| 0 <= i < before.len() implies self.type_interner@[i] == before[i] by {}
            assert forall|e: int|
                0 <= e < self.expr_types@.len() implies match #[trigger] self.expr_types@[e] {
                Some(id) => id.0 < n,
                None => true,
            } by {
                if e != idx && e < old_exprs.len() {
                    assert(self.expr_types@[e] == old_exprs[e]);
                    assert(old(self).expr_types@[e] == old_exprs[e]);
                }
            }
            assert forall|e: int| e != expr.0 implies #[trigger] self.expr_type_of(e) == old(self).expr_type_of(e) by {
                if 0 <= e < old_exprs.len() {
                    assert(self.expr_types@[e] == old_exprs[e]);
                    match old_exprs[e] {
                        Some(i) => {
                            assert(old(self).expr_types@[e] == old_exprs[e]);
                            assert(i.0 < before.len());
                        },
                        None => {},
                    }
                } else if 0 <= e < self.expr_types@.len() {
                    assert(self.expr_types@[e] is None);
                }
            }
            assert forall|s: SymbolId| #[trigger] self.decl_type_of(s) == old(self).decl_type_of(s) by {
                if decl_types_contents(self.decl_types).contains_key(s) {
                    assert(decl_types_contents(self.decl_types)[s].0 < before.len());
                }
            }
        }
        id
    }

    /// Records `ty` as the type of `symbol`, replacing any earlier record,
    /// and returns its interned id.
    pub fn record_decl_type(&mut self, symbol: SymbolId, ty: ArType) -> (r: TypeId)
        requires
            old(self).wf(),
            old(self).types().contains(ty@) || old(self).types().len() <= u32::MAX,
        ensures
            final(self).wf(),
            r.0 < final(self).types().len(),
            final(self).types()[r.0 as int] == ty@,
            old(self).types().contains(ty@) ==> final(self).types() == old(self).types(),
            !old(self).types().contains(ty@) ==> final(self).types() == old(self).types().push(ty@),
            final(self).decl_type_of(symbol) == Some(ty@),
            forall|s: SymbolId| s != symbol ==> #[trigger] final(self).decl_type_of(s) == old(self).decl_type_of(s),
            forall|e: int| #[trigger] final(self).expr_type_of(e) == old(self).expr_type_of(e),
            final(self).enum_variant_table() == old(self).enum_variant_table(),
    {
        let ghost before = self.type_interner@;
        let id = self.type_interner.intern(ty);
        decl_types_insert(&mut self.decl_types, symbol, id);
        proof {
            let n = self.type_interner@.len();
            assert forall|i: int| 0 <= i < before.len() implies self.type_interner@[i] == before[i] by {}
            assert forall|s: SymbolId| s != symbol implies #[trigger] self.decl_type_of(s) == old(self).decl_type_of(s) by {
                if decl_types_contents(old(self).decl_types).contains_key(s) {
                    assert(decl_types_contents(old(self).decl_types)[s].0 < before.len());
                }
            }
            assert forall|e: int| #[trigger] self.expr_type_of(e) == old(self).expr_type_of(e) by {
                if 0 <= e < self.expr_types@.len() {
                    match self.expr_types@[e] {
                        Some(i) => {
                            assert(i.0 < before.len());
                        },
                        None => {},
                    }
                }
            }
        }
        id
    }

    /// The type recorded for `expr`, if any.
    pub fn expr_type(&self, expr: ExprId) -> (r: Option<&ArType>)
        requires
            self.wf(),
        ensures
            match r {
                Some(t) => self.expr_type_of(expr.0 as int) == Some(t@),
                None => self.expr_type_of(expr.0 as int) is None,
            },
    {
        let idx = expr.as_usize();
        if idx < self.expr_types.len() {
            match self.expr_types[idx] {
                Some(id) => Some(self.type_interner.resolve(id)),
                None => None,
            }
        } else {
            None
        }
    }

    /// The type recorded for `symbol`, if any.
    pub fn decl_type(&self, symbol: SymbolId) -> (r: Option<&ArType>)
        requires
            self.wf(),
        ensures
            match r {
                Some(t) => self.decl_type_of(symbol) == Some(t@),
                None => self.decl_type_of(symbol) is None,
            },
    {
        match decl_types_get(&self.decl_types, symbol) {
            Some(id) => Some(self.type_interner.resolve(id)),
            None => None,
        }
    }

    /// Records that `variant` is a variant of the enum `parent` carrying
    /// `shape`, replacing any earlier record.
    pub fn record_enum_variant(&mut self, variant: SymbolId, parent: SymbolId, shape: EnumPayloadShape)
        requires
            old(self).wf(),
        ensures
            final(self).wf(),
            final(self).enum_variant_table() == old(self).enum_variant_table().insert(
                variant,
                (parent, shape_view(shape)),
            ),
            final(self).types() == old(self).types(),
            forall|e: int| #[trigger] final(self).expr_type_of(e) == old(self).expr_type_of(e),
            forall|s: SymbolId| #[trigger] final(self).decl_type_of(s) == old(self).decl_type_of(s),
    {
        enum_variants_insert(&mut self.enum_variants, variant, parent, shape);
    }

    /// The enum and payload recorded for `variant`, if any.
    pub fn enum_variant(&self, variant: SymbolId) -> (r: Option<&(SymbolId, EnumPayloadShape)>)
        ensures
            match r {
                Some(e) => self.enum_variant_table().contains_key(variant)
                    && self.enum_variant_table()[variant] == (e.0, shape_view(e.1)),
                None => !self.enum_variant_table().contains_key(variant),
            },
    {
        enum_variants_get(&self.enum_variants, variant)
    }

    /// Each recorded variant with its enum, each once, in no particular
    /// order.
    pub fn enum_variant_entries(&self) -> (r: Vec<(SymbolId, SymbolId)>)
        ensures
            forall|i: int, j: int| 0 <= i < j < r@.len() ==> r@[i].0 != r@[j].0,
            forall|i: int|
                0 <= i < r@.len() ==> self.enum_variant_table().contains_key(#[trigger] r@[i].0)
                    && self.enum_variant_table()[r@[i].0].0 == r@[i].1,
            forall|v: SymbolId|
                self.enum_variant_table().contains_key(v) ==> exists|i: int|
                    0 <= i < r@.len() && #[trigger] r@[i].0 == v,
    {
        enum_variants_entries(&self.enum_variants)
    }

    /// The type named by `id`.
    pub fn resolve_type_id(&self, id: TypeId) -> (r: &ArType)
        requires
            id.0 < self.types().len(),
        ensures
            r@ == self.types()[id.0 as int],
    {
        self.type_interner.resolve(id)
    }
}

impl Default for TypeInfo {
    fn default() -> (r: Self)
        ensures
            r.wf(),
            r.types() == Seq::<TyView>::empty(),
    {
        TypeInfo::new()
    }
}

} // verus!
