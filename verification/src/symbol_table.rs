use vstd::prelude::*;

use crate::ids::{ScopeId, Span, SymbolId};
use crate::member_index::{
    index_contents, index_entries, index_get, index_insert, index_new, index_remove,
    names_contents, names_entries, names_get, names_insert, names_new, MemberIndex,
};
use crate::text::str_eq;

verus! {

/// What a symbol names.
#[derive(Debug, Clone, Copy, PartialEq, Eq, Structural)]
pub enum SymbolKind {
    Module,
    ImportValue,
    ImportType,
    Func,
    Const,
    TypeAlias,
    Struct,
    Enum,
    Interface,
    ExternFunc,
    Param,
    Local,
    Field,
    EnumVariant,
    TypeParam,
    NamespaceMember,
    AssociatedFunc,
}

/// The kinds that name values.
pub open spec fn spec_is_value(k: SymbolKind) -> bool {
    match k {
        SymbolKind::ImportValue | SymbolKind::Func | SymbolKind::Const | SymbolKind::ExternFunc
        | SymbolKind::Param | SymbolKind::Local | SymbolKind::EnumVariant => true,
        _ => false,
    }
}

/// The kinds that name types.
pub open spec fn spec_is_type(k: SymbolKind) -> bool {
    match k {
        SymbolKind::ImportType | SymbolKind::TypeAlias | SymbolKind::Struct | SymbolKind::Enum
        | SymbolKind::Interface | SymbolKind::TypeParam => true,
        _ => false,
    }
}

impl SymbolKind {
    pub fn is_value(self) -> (r: bool)
        ensures
            r == spec_is_value(self),
    {
        match self {
            SymbolKind::ImportValue | SymbolKind::Func | SymbolKind::Const
            | SymbolKind::ExternFunc | SymbolKind::Param | SymbolKind::Local
            | SymbolKind::EnumVariant => true,
            _ => false,
        }
    }

    pub fn is_type(self) -> (r: bool)
        ensures
            r == spec_is_type(self),
    {
        match self {
            SymbolKind::ImportType | SymbolKind::TypeAlias | SymbolKind::Struct
            | SymbolKind::Enum | SymbolKind::Interface | SymbolKind::TypeParam => true,
            _ => false,
        }
    }
}

/// The kinds a lookup accepts.
#[derive(Clone, Copy)]
pub enum KindFilter {
    Value,
    Type,
    Module,
}

pub open spec fn spec_accepts(f: KindFilter, k: SymbolKind) -> bool {
    match f {
        KindFilter::Value => spec_is_value(k),
        KindFilter::Type => spec_is_type(k),
        KindFilter::Module => k == SymbolKind::Module,
    }
}

fn accepts(f: KindFilter, k: SymbolKind) -> (r: bool)
    ensures
        r == spec_accepts(f, k),
{
    match f {
        KindFilter::Value => k.is_value(),
        KindFilter::Type => k.is_type(),
        KindFilter::Module => match k {
            SymbolKind::Module => true,
            _ => false,
        },
    }
}

/// A declared name.
#[derive(Debug, Clone)]
pub struct Symbol {
    pub id: SymbolId,
    pub name: String,
    pub kind: SymbolKind,
    pub span: Span,
    pub scope: ScopeId,
}

/// A lexical scope: its parent, and the symbols declared in it, in
/// declaration order.
#[derive(Debug, Clone)]
pub struct Scope {
    pub parent: Option<ScopeId>,
    symbols: Vec<SymbolId>,
}

impl Scope {
    /// The symbols declared in the scope, in declaration order.
    pub closed spec fn members(&self) -> Seq<SymbolId> {
        self.symbols@
    }

    /// The enclosing scope.
    pub closed spec fn outer(&self) -> Option<ScopeId> {
        self.parent
    }
}

/// The first symbol in `ids` named `name`.
pub open spec fn spec_find_first(syms: Seq<Symbol>, ids: Seq<SymbolId>, name: Seq<char>) -> Option<
    SymbolId,
>
    decreases ids.len(),
{
    if ids.len() == 0 {
        None
    } else if syms[ids[0].0 as int].name@ == name {
        Some(ids[0])
    } else {
        spec_find_first(syms, ids.drop_first(), name)
    }
}

/// The last symbol in `ids` named `name` whose kind `f` accepts.
pub open spec fn spec_find_last(
    syms: Seq<Symbol>,
    ids: Seq<SymbolId>,
    name: Seq<char>,
    f: KindFilter,
) -> Option<SymbolId>
    decreases ids.len(),
{
    if ids.len() == 0 {
        None
    } else if syms[ids.last().0 as int].name@ == name && spec_accepts(
        f,
        syms[ids.last().0 as int].kind,
    ) {
        Some(ids.last())
    } else {
        spec_find_last(syms, ids.drop_last(), name, f)
    }
}

proof fn lemma_find_last_accepts(syms: Seq<Symbol>, ids: Seq<SymbolId>, name: Seq<char>, f: KindFilter)
    ensures
        spec_find_last(syms, ids, name, f) matches Some(id) ==> spec_accepts(f, syms[id.0 as int].kind),
    decreases ids.len(),
{
    if ids.len() > 0 {
        lemma_find_last_accepts(syms, ids.drop_last(), name, f);
    }
}

/// Name lookup from `scope` outwards: in each scope of the chain, the most
/// recent symbol named `name` whose kind `f` accepts.
pub open spec fn spec_lookup_from(
    scopes: Seq<Scope>,
    syms: Seq<Symbol>,
    scope: int,
    name: Seq<char>,
    f: KindFilter,
) -> Option<SymbolId>
    decreases scope,
{
    if !(0 <= scope < scopes.len()) {
        None
    } else {
        match spec_find_last(syms, scopes[scope].members(), name, f) {
            Some(id) => Some(id),
            None => match scopes[scope].outer() {
                Some(p) => if p.0 < scope {
                    spec_lookup_from(scopes, syms, p.0 as int, name, f)
                } else {
                    None
                },
                None => None,
            },
        }
    }
}

/// Name lookup from `scope` outwards, of any kind: in each scope of the
/// chain, the first symbol named `name`.
pub open spec fn spec_lookup_any_from(
    scopes: Seq<Scope>,
    syms: Seq<Symbol>,
    scope: int,
    name: Seq<char>,
) -> Option<SymbolId>
    decreases scope,
{
    if !(0 <= scope < scopes.len()) {
        None
    } else {
        match spec_find_first(syms, scopes[scope].members(), name) {
            Some(id) => Some(id),
            None => match scopes[scope].outer() {
                Some(p) => if p.0 < scope {
                    spec_lookup_any_from(scopes, syms, p.0 as int, name)
                } else {
                    None
                },
                None => None,
            },
        }
    }
}

/// Whether the symbol an id names has a kind that `f` accepts.
pub open spec fn kind_pred(syms: Seq<Symbol>, f: KindFilter) -> spec_fn(SymbolId) -> bool {
    |id: SymbolId| spec_accepts(f, syms[id.0 as int].kind)
}

/// The symbols visible from `scope`, innermost scope first and in
/// declaration order within a scope, whose kind `f` accepts.
pub open spec fn spec_candidates_from(
    scopes: Seq<Scope>,
    syms: Seq<Symbol>,
    scope: int,
    f: KindFilter,
) -> Seq<SymbolId>
    decreases scope,
{
    if !(0 <= scope < scopes.len()) {
        Seq::empty()
    } else {
        let here = scopes[scope].members().filter(kind_pred(syms, f));
        match scopes[scope].outer() {
            Some(p) => if p.0 < scope {
                here + spec_candidates_from(scopes, syms, p.0 as int, f)
            } else {
                here
            },
            None => here,
        }
    }
}

/// Hierarchical scopes and the symbols declared in them.
#[derive(Debug, Clone)]
pub struct SymbolTable {
    scopes: Vec<Scope>,
    symbols: Vec<Symbol>,
    module_members: MemberIndex,
    associated_members: MemberIndex,
}

/// `owner.member`, the name under which a member is defined globally.
pub open spec fn spec_qualified(owner: Seq<char>, member: Seq<char>) -> Seq<char> {
    owner + "."@ + member
}

/// `index` with `member` of `owner` set to `id`, the owner's other members
/// kept.
pub open spec fn spec_add_member(
    index: Map<Seq<char>, Map<Seq<char>, SymbolId>>,
    owner: Seq<char>,
    member: Seq<char>,
    id: SymbolId,
) -> Map<Seq<char>, Map<Seq<char>, SymbolId>> {
    let members = if index.contains_key(owner) {
        index[owner]
    } else {
        Map::empty()
    };
    index.insert(owner, members.insert(member, id))
}

/// Whether every member recorded in `index` is one of the first `n`
/// symbols.
pub open spec fn members_below(index: Map<Seq<char>, Map<Seq<char>, SymbolId>>, n: nat) -> bool {
    forall|owner: Seq<char>, member: Seq<char>|
        #[trigger] index.contains_key(owner) && #[trigger] index[owner].contains_key(member) ==> index[owner][member].0
            < n
}

/// The member `member` of `owner` in `index`, if any.
pub open spec fn spec_member(
    index: Map<Seq<char>, Map<Seq<char>, SymbolId>>,
    owner: Seq<char>,
    member: Seq<char>,
) -> Option<SymbolId> {
    if index.contains_key(owner) && index[owner].contains_key(member) {
        Some(index[owner][member])
    } else {
        None
    }
}

/// `id` moved past the first `n` symbols.
pub open spec fn shift_symbol(id: SymbolId, n: nat) -> SymbolId {
    SymbolId((id.0 + n) as u32)
}

/// A scope of a merged table renumbered after the `n` scopes of the
/// table it joins: the global scope stays the global scope.
pub open spec fn shift_scope(sc: ScopeId, n: nat) -> ScopeId {
    if sc.0 == 0 {
        sc
    } else {
        ScopeId((sc.0 + n - 1) as u32)
    }
}

/// Each id of `ids` moved past the first `n` symbols.
pub open spec fn shift_ids(ids: Seq<SymbolId>, n: nat) -> Seq<SymbolId> {
    ids.map_values(|id: SymbolId| shift_symbol(id, n))
}

/// Each symbol of `names` moved past the first `n` symbols.
pub open spec fn shift_names(names: Map<Seq<char>, SymbolId>, n: nat) -> Map<Seq<char>, SymbolId> {
    names.map_values(|id: SymbolId| shift_symbol(id, n))
}

/// The members of `owner` in `index`, none if it has no entry.
pub open spec fn members_or_empty(
    index: Map<Seq<char>, Map<Seq<char>, SymbolId>>,
    owner: Seq<char>,
) -> Map<Seq<char>, SymbolId> {
    if index.contains_key(owner) {
        index[owner]
    } else {
        Map::empty()
    }
}

/// `a` with the members of `b`, moved past the first `n` symbols, added
/// owner by owner; where both have a member, `b`'s wins.
pub open spec fn merge_index(
    a: Map<Seq<char>, Map<Seq<char>, SymbolId>>,
    b: Map<Seq<char>, Map<Seq<char>, SymbolId>>,
    n: nat,
) -> Map<Seq<char>, Map<Seq<char>, SymbolId>> {
    Map::new(
        |k: Seq<char>| a.contains_key(k) || b.contains_key(k),
        |k: Seq<char>|
            if b.contains_key(k) {
                members_or_empty(a, k).union_prefer_right(shift_names(b[k], n))
            } else {
                a[k]
            },
    )
}

/// Adds to `target` the entries of `source`, each symbol moved by `shift`.
fn merge_names_into(target: &mut crate::member_index::MemberNames, source: crate::member_index::MemberNames, shift: u32)
    requires
        forall|k: Seq<char>|
            #[trigger] names_contents(source).contains_key(k) ==> names_contents(source)[k].0 + shift
                <= u32::MAX,
    ensures
        names_contents(*final(target)) == names_contents(*old(target)).union_prefer_right(
            shift_names(names_contents(source), shift as nat),
        ),
{
    let ghost src = names_contents(source);
    let ghost base = names_contents(*target);
    let entries = names_entries(source);
    let mut i: usize = 0;
    while i < entries.len()
        invariant
            i <= entries@.len(),
            forall|a: int, b: int| 0 <= a < b < entries@.len() ==> entries@[a].0@ != entries@[b].0@,
            forall|a: int|
                0 <= a < entries@.len() ==> src.contains_key(#[trigger] entries@[a].0@) && src[entries@[a].0@]
                    == entries@[a].1,
            forall|k: Seq<char>|
                src.contains_key(k) ==> exists|a: int| 0 <= a < entries@.len() && #[trigger] entries@[a].0@ == k,
            forall|k: Seq<char>|
                #[trigger] src.contains_key(k) ==> src[k].0 + shift <= u32::MAX,
            forall|k: Seq<char>|
                #[trigger] names_contents(*target).contains_key(k) == (base.contains_key(k) || exists|a: int|
                    0 <= a < i && #[trigger] entries@[a].0@ == k),
            forall|k: Seq<char>|
                #[trigger] names_contents(*target).contains_key(k) ==> names_contents(*target)[k] == if exists|a: int|
                    0 <= a < i && #[trigger] entries@[a].0@ == k {
                    shift_symbol(src[k], shift as nat)
                } else {
                    base[k]
                },
        decreases entries@.len() - i,
    {
        let (name, id) = (&entries[i].0, entries[i].1);
        assert(src.contains_key(entries@[i as int].0@));
        let moved = SymbolId(id.0 + shift);
        names_insert(target, name.clone(), moved);
        i += 1;
        proof {
            assert forall|k: Seq<char>| #[trigger] names_contents(*target).contains_key(k) == (base.contains_key(k)
                || exists|a: int| 0 <= a < i && #[trigger] entries@[a].0@ == k) by {
                if k == entries@[i - 1].0@ {
                    assert(entries@[i - 1].0@ == k);
                } else if exists|a: int| 0 <= a < i && #[trigger] entries@[a].0@ == k {
                    let a = choose|a: int| 0 <= a < i && #[trigger] entries@[a].0@ == k;
                    assert(a < i - 1);
                }
            }
            assert forall|k: Seq<char>| #[trigger] names_contents(*target).contains_key(k) implies names_contents(
                *target,
            )[k] == if exists|a: int| 0 <= a < i && #[trigger] entries@[a].0@ == k {
                shift_symbol(src[k], shift as nat)
            } else {
                base[k]
            } by {
                if k == entries@[i - 1].0@ {
                    assert(entries@[i - 1].0@ == k);
                } else if exists|a: int| 0 <= a < i && #[trigger] entries@[a].0@ == k {
                    let a = choose|a: int| 0 <= a < i && #[trigger] entries@[a].0@ == k;
                    assert(a < i - 1);
                }
            }
        }
    }
    proof {
        let want = base.union_prefer_right(shift_names(src, shift as nat));
        assert forall|k: Seq<char>| #[trigger] names_contents(*target).contains_key(k) == want.contains_key(k) by {
            if src.contains_key(k) {
                let a = choose|a: int| 0 <= a < entries@.len() && #[trigger] entries@[a].0@ == k;
            }
        }
        assert forall|k: Seq<char>| #[trigger] names_contents(*target).contains_key(k) implies names_contents(
            *target,
        )[k] == want[k] by {
            if src.contains_key(k) {
                let a = choose|a: int| 0 <= a < entries@.len() && #[trigger] entries@[a].0@ == k;
            }
        }
        assert(names_contents(*target) =~= want);
    }
}

/// Adds to `target` the owners and members of `source`, each symbol moved
/// by `shift`.
fn merge_index_into(target: &mut MemberIndex, source: MemberIndex, shift: u32)
    requires
        forall|owner: Seq<char>, member: Seq<char>|
            #[trigger] index_contents(source).contains_key(owner) && #[trigger] index_contents(
                source,
            )[owner].contains_key(member) ==> index_contents(source)[owner][member].0 + shift <= u32::MAX,
    ensures
        index_contents(*final(target)) == merge_index(
            index_contents(*old(target)),
            index_contents(source),
            shift as nat,
        ),
{
    let ghost src = index_contents(source);
    let ghost base = index_contents(*target);
    let mut entries = index_entries(source);
    let ghost all = entries@;
    let ghost n = all.len();
    while entries.len() > 0
        invariant
            entries@.len() <= n,
            entries@ == all.take(entries@.len() as int),
            n == all.len(),
            forall|a: int, b: int| 0 <= a < b < n ==> all[a].0@ != all[b].0@,
            forall|a: int|
                0 <= a < n ==> src.contains_key(#[trigger] all[a].0@) && src[all[a].0@] == names_contents(all[a].1),
            forall|k: Seq<char>| src.contains_key(k) ==> exists|a: int| 0 <= a < n && #[trigger] all[a].0@ == k,
            forall|owner: Seq<char>, member: Seq<char>|
                #[trigger] src.contains_key(owner) && #[trigger] src[owner].contains_key(member) ==> src[owner][member].0
                    + shift <= u32::MAX,
            forall|k: Seq<char>|
                #[trigger] index_contents(*target).contains_key(k) == (base.contains_key(k) || exists|a: int|
                    entries@.len() <= a < n && #[trigger] all[a].0@ == k),
            forall|k: Seq<char>|
                #[trigger] index_contents(*target).contains_key(k) ==> index_contents(*target)[k] == if exists|a: int|
                    entries@.len() <= a < n && #[trigger] all[a].0@ == k {
                    members_or_empty(base, k).union_prefer_right(shift_names(src[k], shift as nat))
                } else {
                    base[k]
                },
        decreases entries@.len(),
    {
        let ghost i = entries@.len() - 1;
        let (owner, source_members) = entries.pop().unwrap();
        let ghost key = owner@;
        assert(all[i] == (owner, source_members));
        assert(src.contains_key(key));
        proof {
            assert(!exists|a: int| i < a < n && #[trigger] all[a].0@ == key) by {
                if exists|a: int| i < a < n && #[trigger] all[a].0@ == key {
                    let a = choose|a: int| i < a < n && #[trigger] all[a].0@ == key;
                    assert(all[i].0@ != all[a].0@);
                }
            }
        }
        let mut members = match index_remove(target, owner.as_str()) {
            Some(m) => m,
            None => names_new(),
        };
        assert(names_contents(members) == members_or_empty(base, key));
        proof {
            assert forall|k: Seq<char>| #[trigger] names_contents(source_members).contains_key(k) implies names_contents(
                source_members,
            )[k].0 + shift <= u32::MAX by {
                assert(src[key].contains_key(k));
            }
        }
        merge_names_into(&mut members, source_members, shift);
        index_insert(target, owner, members);
        proof {
            assert(entries@ =~= all.take(i));
            assert forall|k: Seq<char>| #[trigger] index_contents(*target).contains_key(k) == (base.contains_key(k)
                || exists|a: int| i <= a < n && #[trigger] all[a].0@ == k) by {
                if k == key {
                    assert(all[i].0@ == k);
                } else if exists|a: int| i <= a < n && #[trigger] all[a].0@ == k {
                    let a = choose|a: int| i <= a < n && #[trigger] all[a].0@ == k;
                    assert(a > i);
                }
            }
            assert forall|k: Seq<char>| #[trigger] index_contents(*target).contains_key(k) implies index_contents(
                *target,
            )[k] == if exists|a: int| i <= a < n && #[trigger] all[a].0@ == k {
                members_or_empty(base, k).union_prefer_right(shift_names(src[k], shift as nat))
            } else {
                base[k]
            } by {
                if k == key {
                    assert(all[i].0@ == k);
                } else if exists|a: int| i <= a < n && #[trigger] all[a].0@ == k {
                    let a = choose|a: int| i <= a < n && #[trigger] all[a].0@ == k;
                    assert(a > i);
                }
            }
        }
    }
    proof {
        let want = merge_index(base, src, shift as nat);
        assert forall|k: Seq<char>| #[trigger] index_contents(*target).contains_key(k) == want.contains_key(k) by {
            if src.contains_key(k) {
                let a = choose|a: int| 0 <= a < n && #[trigger] all[a].0@ == k;
            }
        }
        assert forall|k: Seq<char>| #[trigger] index_contents(*target).contains_key(k) implies index_contents(
            *target,
        )[k] == want[k] by {
            if src.contains_key(k) {
                let a = choose|a: int| 0 <= a < n && #[trigger] all[a].0@ == k;
            }
        }
        assert(index_contents(*target) =~= want);
    }
}

/// After a merge, a member of an owner is the other table's member, moved
/// past this table's symbols, where the other table has one, and this
/// table's member otherwise.
pub proof fn lemma_member_after_merge(
    a: Map<Seq<char>, Map<Seq<char>, SymbolId>>,
    b: Map<Seq<char>, Map<Seq<char>, SymbolId>>,
    n: nat,
    owner: Seq<char>,
    member: Seq<char>,
)
    ensures
        spec_member(merge_index(a, b, n), owner, member) == match spec_member(b, owner, member) {
            Some(id) => Some(shift_symbol(id, n)),
            None => spec_member(a, owner, member),
        },
{
}

/// A value lookup finds only values (imported values, functions,
/// constants, extern functions, parameters, locals and enum variants), a
/// type lookup only types (imported types, aliases, structs, enums,
/// interfaces and type parameters), and a module lookup only modules.
pub proof fn lemma_lookup_finds_kind(scopes: Seq<Scope>, syms: Seq<Symbol>, scope: int, name: Seq<char>)
    ensures
        spec_lookup_from(scopes, syms, scope, name, KindFilter::Value) matches Some(id) ==> (syms[id.0 as int].kind == SymbolKind::ImportValue || syms[id.0 as int].kind == SymbolKind::Func || syms[id.0 as int].kind == SymbolKind::Const || syms[id.0 as int].kind == SymbolKind::ExternFunc || syms[id.0 as int].kind == SymbolKind::Param || syms[id.0 as int].kind == SymbolKind::Local || syms[id.0 as int].kind == SymbolKind::EnumVariant),
        spec_lookup_from(scopes, syms, scope, name, KindFilter::Type) matches Some(id) ==> (syms[id.0 as int].kind == SymbolKind::ImportType || syms[id.0 as int].kind == SymbolKind::TypeAlias || syms[id.0 as int].kind == SymbolKind::Struct || syms[id.0 as int].kind == SymbolKind::Enum || syms[id.0 as int].kind == SymbolKind::Interface || syms[id.0 as int].kind == SymbolKind::TypeParam),
        spec_lookup_from(scopes, syms, scope, name, KindFilter::Module) matches Some(id) ==> syms[id.0 as int].kind
            == SymbolKind::Module,
    decreases scope,
{
    if 0 <= scope < scopes.len() {
        lemma_find_last_accepts(syms, scopes[scope].members(), name, KindFilter::Value);
        lemma_find_last_accepts(syms, scopes[scope].members(), name, KindFilter::Type);
        lemma_find_last_accepts(syms, scopes[scope].members(), name, KindFilter::Module);
        match scopes[scope].outer() {
            Some(p) => if p.0 < scope {
                lemma_lookup_finds_kind(scopes, syms, p.0 as int, name);
            },
            None => {},
        }
    }
}

proof fn lemma_find_first_extend(s: Seq<Symbol>, t: Seq<Symbol>, ids: Seq<SymbolId>, name: Seq<char>)
    requires
        s.len() <= t.len(),
        forall|i: int| 0 <= i < s.len() ==> #[trigger] t[i] == s[i],
        forall|k: int| 0 <= k < ids.len() ==> (#[trigger] ids[k]).0 < s.len(),
    ensures
        spec_find_first(t, ids, name) == spec_find_first(s, ids, name),
    decreases ids.len(),
{
    if ids.len() > 0 {
        assert(t[ids[0].0 as int] == s[ids[0].0 as int]);
        assert forall|k: int| 0 <= k < ids.drop_first().len() implies (#[trigger] ids.drop_first()[k]).0 < s.len() by {
            assert(ids.drop_first()[k] == ids[k + 1]);
        }
        lemma_find_first_extend(s, t, ids.drop_first(), name);
    }
}

proof fn lemma_find_first_push(s: Seq<Symbol>, ids: Seq<SymbolId>, x: SymbolId, name: Seq<char>)
    requires
        spec_find_first(s, ids, name) is None,
        s[x.0 as int].name@ == name,
    ensures
        spec_find_first(s, ids.push(x), name) == Some(x),
    decreases ids.len(),
{
    if ids.len() == 0 {
        assert(ids.push(x)[0] == x);
    } else {
        assert(ids.push(x).drop_first() =~= ids.drop_first().push(x));
        assert(ids.push(x)[0] == ids[0]);
        lemma_find_first_push(s, ids.drop_first(), x, name);
    }
}

proof fn lemma_merge_index_shift_unused(
    a: Map<Seq<char>, Map<Seq<char>, SymbolId>>,
    b: Map<Seq<char>, Map<Seq<char>, SymbolId>>,
    n1: nat,
    n2: nat,
)
    requires
        members_below(b, 0),
    ensures
        merge_index(a, b, n1) == merge_index(a, b, n2),
{
    assert forall|k: Seq<char>| b.contains_key(k) implies shift_names(b[k], n1) == shift_names(b[k], n2) by {
        assert(shift_names(b[k], n1) =~= shift_names(b[k], n2));
    }
    assert(merge_index(a, b, n1) =~= merge_index(a, b, n2));
}

proof fn lemma_merge_index_below(
    a: Map<Seq<char>, Map<Seq<char>, SymbolId>>,
    b: Map<Seq<char>, Map<Seq<char>, SymbolId>>,
    na: nat,
    nb: nat,
)
    requires
        members_below(a, na),
        members_below(b, nb),
        na + nb <= u32::MAX + 1,
    ensures
        members_below(merge_index(a, b, na), na + nb),
{
    let m = merge_index(a, b, na);
    assert forall|owner: Seq<char>, member: Seq<char>|
        #[trigger] m.contains_key(owner) && #[trigger] m[owner].contains_key(member) implies m[owner][member].0
        < na + nb by {
        if b.contains_key(owner) && b[owner].contains_key(member) {
            assert(b[owner][member].0 < nb);
        } else if a.contains_key(owner) {
            assert(a[owner].contains_key(member));
            assert(a[owner][member].0 < na);
        }
    }
}

impl SymbolTable {
    /// The scopes, global scope first.
    pub closed spec fn scope_seq(&self) -> Seq<Scope> {
        self.scopes@
    }

    /// The symbols, in the order they were defined.
    pub closed spec fn symbol_seq(&self) -> Seq<Symbol> {
        self.symbols@
    }

    /// The members of each module.
    pub closed spec fn module_member_map(&self) -> Map<Seq<char>, Map<Seq<char>, SymbolId>> {
        index_contents(self.module_members)
    }

    /// The associated members of each type.
    pub closed spec fn associated_member_map(&self) -> Map<Seq<char>, Map<Seq<char>, SymbolId>> {
        index_contents(self.associated_members)
    }

    /// The internal invariant: a global scope exists, every parent comes
    /// before its child, every member of a scope is a defined symbol, and
    /// each symbol's id is its position.
    pub closed spec fn wf(&self) -> bool {
        let sc = self.scopes@;
        let sy = self.symbols@;
        &&& 1 <= sc.len() <= u32::MAX + 1
        &&& sy.len() <= u32::MAX + 1
        &&& forall|i: int|
            0 <= i < sc.len() ==> match (#[trigger] sc[i]).outer() {
                Some(p) => p.0 < i,
                None => true,
            }
        &&& forall|i: int, k: int|
            0 <= i < sc.len() && 0 <= k < sc[i].members().len() ==> (
            #[trigger] sc[i].members()[k]).0 < sy.len()
        &&& forall|j: int| 0 <= j < sy.len() ==> (#[trigger] sy[j]).id.0 == j
        &&& forall|j: int| 0 <= j < sy.len() ==> (#[trigger] sy[j]).scope.0 < sc.len()
        &&& members_below(self.module_member_map(), sy.len())
        &&& members_below(self.associated_member_map(), sy.len())
    }

    pub fn new() -> (r: SymbolTable)
        ensures
            r.wf(),
            r.scope_seq().len() == 1,
            r.scope_seq()[0].outer() is None,
            r.scope_seq()[0].members() == Seq::<SymbolId>::empty(),
            r.symbol_seq() == Seq::<Symbol>::empty(),
            r.module_member_map() == Map::<Seq<char>, Map<Seq<char>, SymbolId>>::empty(),
            r.associated_member_map() == Map::<Seq<char>, Map<Seq<char>, SymbolId>>::empty(),
    {
        let mut scopes: Vec<Scope> = Vec::new();
        scopes.push(Scope { parent: None, symbols: Vec::new() });
        SymbolTable {
            scopes,
            symbols: Vec::new(),
            module_members: index_new(),
            associated_members: index_new(),
        }
    }

    /// Appends the scopes, symbols and member indexes of `other`: its
    /// global scope's symbols join this table's global scope, its other
    /// scopes follow this table's scopes, its symbols follow this table's
    /// symbols, with every reference renumbered accordingly, and its
    /// members are added to this table's members, owner by owner.
    pub fn merge_from(&mut self, other: SymbolTable)
        requires
            old(self).wf(),
            other.wf(),
            old(self).symbol_seq().len() + other.symbol_seq().len() <= u32::MAX + 1,
            old(self).scope_seq().len() + other.scope_seq().len() <= u32::MAX + 1,
        ensures
            final(self).wf(),
            final(self).scope_seq().len() == old(self).scope_seq().len() + other.scope_seq().len() - 1,
            final(self).scope_seq()[0].members() == old(self).scope_seq()[0].members() + shift_ids(
                other.scope_seq()[0].members(),
                old(self).symbol_seq().len(),
            ),
            final(self).scope_seq()[0].outer() == old(self).scope_seq()[0].outer(),
            forall|i: int|
                1 <= i < old(self).scope_seq().len() ==> #[trigger] final(self).scope_seq()[i] == old(
                    self,
                ).scope_seq()[i],
            forall|i: int|
                1 <= i < other.scope_seq().len() ==> {
                    &&& (#[trigger] final(self).scope_seq()[old(self).scope_seq().len() + i - 1]).members()
                        == shift_ids(other.scope_seq()[i].members(), old(self).symbol_seq().len())
                    &&& final(self).scope_seq()[old(self).scope_seq().len() + i - 1].outer() == match other.scope_seq()[i].outer() {
                        Some(p) => Some(shift_scope(p, old(self).scope_seq().len())),
                        None => None,
                    }
                },
            final(self).symbol_seq().len() == old(self).symbol_seq().len() + other.symbol_seq().len(),
            forall|j: int|
                0 <= j < old(self).symbol_seq().len() ==> #[trigger] final(self).symbol_seq()[j] == old(
                    self,
                ).symbol_seq()[j],
            forall|j: int|
                0 <= j < other.symbol_seq().len() ==> {
                    let s = #[trigger] final(self).symbol_seq()[old(self).symbol_seq().len() + j];
                    let o = other.symbol_seq()[j];
                    &&& s.id == shift_symbol(o.id, old(self).symbol_seq().len())
                    &&& s.name@ == o.name@
                    &&& s.kind == o.kind
                    &&& s.span == o.span
                    &&& s.scope == shift_scope(o.scope, old(self).scope_seq().len())
                },
            final(self).module_member_map() == merge_index(
                old(self).module_member_map(),
                other.module_member_map(),
                old(self).symbol_seq().len(),
            ),
            final(self).associated_member_map() == merge_index(
                old(self).associated_member_map(),
                other.associated_member_map(),
                old(self).symbol_seq().len(),
            ),
    {
        let ghost ns = self.symbols@.len();
        let ghost nsc = self.scopes@.len();
        let ghost old_scopes = self.scopes@;
        let ghost old_symbols = self.symbols@;
        let ghost osc = other.scopes@;
        let ghost osy = other.symbols@;
        let self_symbols_len = self.symbols.len() as u32;
        let self_scopes_len = self.scopes.len() as u32;
        assert(osy.len() > 0 ==> self_symbols_len == ns);
        assert(osc.len() > 1 ==> self_scopes_len == nsc);
        let SymbolTable { scopes: other_scopes, symbols: other_symbols, module_members, associated_members } = other;
        // The global scope's symbols.
        let globals = &other_scopes[0].symbols;
        let mut k: usize = 0;
        while k < globals.len()
            invariant
                self.scopes@.len() == nsc,
                nsc >= 1,
                self.symbols@ == old_symbols,
                index_contents(self.module_members) == old(self).module_member_map(),
                index_contents(self.associated_members) == old(self).associated_member_map(),
                globals@ == osc[0].members(),
                osy.len() > 0 ==> self_symbols_len == ns,
                forall|a: int| 0 <= a < globals@.len() ==> (#[trigger] globals@[a]).0 < osy.len(),
                ns + osy.len() <= u32::MAX + 1,
                k <= globals@.len(),
                self.scopes@[0].members() == old_scopes[0].members() + shift_ids(globals@.take(k as int), ns),
                self.scopes@[0].outer() == old_scopes[0].outer(),
                forall|i: int| 1 <= i < nsc ==> #[trigger] self.scopes@[i] == old_scopes[i],
            decreases globals@.len() - k,
        {
            let id = globals[k];
            assert(id.0 < osy.len());
            let moved = SymbolId(id.0 + self_symbols_len);
            let ghost before = self.scopes@;
            self.scopes[0].symbols.push(moved);
            k += 1;
            proof {
                assert(shift_ids(globals@.take(k as int), ns) =~= shift_ids(globals@.take(k - 1), ns).push(moved));
                assert forall|i: int| 1 <= i < nsc implies #[trigger] self.scopes@[i] == old_scopes[i] by {
                    assert(self.scopes@[i] == before[i]);
                }
            }
        }
        assert(globals@.take(k as int) =~= globals@);
        // The other scopes.
        let mut i: usize = 1;
        while i < other_scopes.len()
            invariant
                other_scopes@ == osc,
                1 <= i <= osc.len(),
                self.scopes@.len() == nsc + i - 1,
                nsc >= 1,
                nsc + osc.len() <= u32::MAX + 1,
                osc.len() > 1 ==> self_scopes_len == nsc,
                ns + osy.len() <= u32::MAX + 1,
                osy.len() > 0 ==> self_symbols_len == ns,
                self.symbols@ == old_symbols,
                index_contents(self.module_members) == old(self).module_member_map(),
                index_contents(self.associated_members) == old(self).associated_member_map(),
                forall|a: int, b: int|
                    0 <= a < osc.len() && 0 <= b < osc[a].members().len() ==> (#[trigger] osc[a].members()[b]).0
                        < osy.len(),
                forall|a: int|
                    0 <= a < osc.len() ==> match (#[trigger] osc[a]).outer() {
                        Some(p) => p.0 < a,
                        None => true,
                    },
                self.scopes@[0].members() == old_scopes[0].members() + shift_ids(osc[0].members(), ns),
                self.scopes@[0].outer() == old_scopes[0].outer(),
                forall|a: int| 1 <= a < nsc ==> #[trigger] self.scopes@[a] == old_scopes[a],
                forall|a: int|
                    1 <= a < i ==> {
                        &&& (#[trigger] self.scopes@[nsc + a - 1]).members() == shift_ids(osc[a].members(), ns)
                        &&& self.scopes@[nsc + a - 1].outer() == match osc[a].outer() {
                            Some(p) => Some(shift_scope(p, nsc)),
                            None => None,
                        }
                    },
            decreases osc.len() - i,
        {
            let old_scope = &other_scopes[i];
            let new_parent = match old_scope.parent {
                Some(p) => {
                    if p.0 == 0 {
                        Some(ScopeId(0))
                    } else {
                        Some(ScopeId(p.0 + self_scopes_len - 1))
                    }
                },
                None => None,
            };
            let mut new_symbols: Vec<SymbolId> = Vec::new();
            let mut t: usize = 0;
            while t < old_scope.symbols.len()
                invariant
                    old_scope == osc[i as int],
                    0 <= i < osc.len(),
                    forall|b: int| 0 <= b < old_scope.members().len() ==> (#[trigger] old_scope.members()[b]).0 < osy.len(),
                    ns + osy.len() <= u32::MAX + 1,
                    osy.len() > 0 ==> self_symbols_len == ns,
                    t <= old_scope.symbols@.len(),
                    new_symbols@ == shift_ids(old_scope.symbols@.take(t as int), ns),
                decreases old_scope.symbols@.len() - t,
            {
                let id = old_scope.symbols[t];
                assert(old_scope.members()[t as int] == id);
                new_symbols.push(SymbolId(id.0 + self_symbols_len));
                t += 1;
                assert(new_symbols@ =~= shift_ids(old_scope.symbols@.take(t as int), ns));
            }
            assert(old_scope.symbols@.take(t as int) =~= old_scope.symbols@);
            let ghost before = self.scopes@;
            self.scopes.push(Scope { parent: new_parent, symbols: new_symbols });
            i += 1;
            proof {
                assert forall|a: int| 1 <= a < nsc implies #[trigger] self.scopes@[a] == old_scopes[a] by {
                    assert(self.scopes@[a] == before[a]);
                }
                assert forall|a: int| 1 <= a < i implies {
                    &&& (#[trigger] self.scopes@[nsc + a - 1]).members() == shift_ids(osc[a].members(), ns)
                    &&& self.scopes@[nsc + a - 1].outer() == match osc[a].outer() {
                        Some(p) => Some(shift_scope(p, nsc)),
                        None => None,
                    }
                } by {
                    if a < i - 1 {
                        assert(self.scopes@[nsc + a - 1] == before[nsc + a - 1]);
                    }
                }
            }
        }
        // The symbols.
        let ghost scopes_after = self.scopes@;
        let mut j: usize = 0;
        while j < other_symbols.len()
            invariant
                other_symbols@ == osy,
                self.scopes@ == scopes_after,
                nsc >= 1,
                index_contents(self.module_members) == old(self).module_member_map(),
                index_contents(self.associated_members) == old(self).associated_member_map(),
                j <= osy.len(),
                self.symbols@.len() == ns + j,
                ns + osy.len() <= u32::MAX + 1,
                nsc + osc.len() <= u32::MAX + 1,
                osy.len() > 0 ==> self_symbols_len == ns,
                osc.len() > 1 ==> self_scopes_len == nsc,
                forall|a: int| 0 <= a < osy.len() ==> (#[trigger] osy[a]).id.0 == a,
                forall|a: int| 0 <= a < osy.len() ==> (#[trigger] osy[a]).scope.0 < osc.len(),
                forall|a: int| 0 <= a < ns ==> #[trigger] self.symbols@[a] == old_symbols[a],
                forall|a: int|
                    0 <= a < j ==> {
                        let s = #[trigger] self.symbols@[ns + a];
                        let o = osy[a];
                        &&& s.id == shift_symbol(o.id, ns)
                        &&& s.name@ == o.name@
                        &&& s.kind == o.kind
                        &&& s.span == o.span
                        &&& s.scope == shift_scope(o.scope, nsc)
                    },
            decreases osy.len() - j,
        {
            let old_symbol = &other_symbols[j];
            assert(*old_symbol == osy[j as int]);
            let new_scope = if old_symbol.scope.0 == 0 {
                ScopeId(0)
            } else {
                ScopeId(old_symbol.scope.0 + self_scopes_len - 1)
            };
            let ghost before = self.symbols@;
            self.symbols.push(
                Symbol {
                    id: SymbolId(old_symbol.id.0 + self_symbols_len),
                    name: old_symbol.name.clone(),
                    kind: old_symbol.kind,
                    span: old_symbol.span,
                    scope: new_scope,
                },
            );
            j += 1;
            proof {
                assert forall|a: int| 0 <= a < ns implies #[trigger] self.symbols@[a] == old_symbols[a] by {
                    assert(self.symbols@[a] == before[a]);
                }
                assert forall|a: int| 0 <= a < j implies {
                    let s = #[trigger] self.symbols@[ns + a];
                    let o = osy[a];
                    &&& s.id == shift_symbol(o.id, ns)
                    &&& s.name@ == o.name@
                    &&& s.kind == o.kind
                    &&& s.span == o.span
                    &&& s.scope == shift_scope(o.scope, nsc)
                } by {
                    if a < j - 1 {
                        assert(self.symbols@[ns + a] == before[ns + a]);
                    }
                }
            }
        }
        // The member indexes.
        proof {
            assert forall|owner: Seq<char>, member: Seq<char>|
                #[trigger] index_contents(module_members).contains_key(owner) && #[trigger] index_contents(
                    module_members,
                )[owner].contains_key(member) implies index_contents(module_members)[owner][member].0
                + self_symbols_len <= u32::MAX by {}
            assert forall|owner: Seq<char>, member: Seq<char>|
                #[trigger] index_contents(associated_members).contains_key(owner) && #[trigger] index_contents(
                    associated_members,
                )[owner].contains_key(member) implies index_contents(associated_members)[owner][member].0
                + self_symbols_len <= u32::MAX by {}
        }
        merge_index_into(&mut self.module_members, module_members, self_symbols_len);
        merge_index_into(&mut self.associated_members, associated_members, self_symbols_len);
        proof {
            if osy.len() == 0 {
                lemma_merge_index_shift_unused(old(self).module_member_map(), index_contents(module_members), self_symbols_len as nat, ns);
                lemma_merge_index_shift_unused(old(self).associated_member_map(), index_contents(associated_members), self_symbols_len as nat, ns);
            }
            lemma_merge_index_below(old(self).module_member_map(), index_contents(module_members), ns, osy.len());
            lemma_merge_index_below(old(self).associated_member_map(), index_contents(associated_members), ns, osy.len());
            let sc = self.scopes@;
            let sy = self.symbols@;
            assert forall|a: int|
                0 <= a < sc.len() implies match (#[trigger] sc[a]).outer() {
                    Some(p) => p.0 < a,
                    None => true,
                } by {
                if a >= nsc {
                    let b = a - nsc + 1;
                    assert(sc[nsc + b - 1] == sc[a]);
                    assert(match osc[b].outer() {
                        Some(p) => p.0 < b,
                        None => true,
                    });
                } else if a >= 1 {
                    assert(sc[a] == old_scopes[a]);
                }
            }
            assert forall|a: int, k: int|
                0 <= a < sc.len() && 0 <= k < sc[a].members().len() implies (
                #[trigger] sc[a].members()[k]).0 < sy.len() by {
                if a == 0 {
                    if k >= old_scopes[0].members().len() {
                        let b = k - old_scopes[0].members().len();
                        assert(osc[0].members()[b].0 < osy.len());
                    } else {
                        assert(old_scopes[0].members()[k].0 < ns);
                    }
                } else if a >= nsc {
                    let b = a - nsc + 1;
                    assert(sc[nsc + b - 1] == sc[a]);
                    assert(osc[b].members()[k].0 < osy.len());
                } else {
                    assert(sc[a] == old_scopes[a]);
                    assert(old_scopes[a].members()[k].0 < ns);
                }
            }
            assert forall|a: int| 0 <= a < sy.len() implies (#[trigger] sy[a]).id.0 == a && sy[a].scope.0 < sc.len() by {
                if a >= ns {
                    let b = a - ns;
                    assert(sy[ns + b] == sy[a]);
                    assert(osy[b].id.0 == b);
                } else {
                    assert(sy[a] == old_symbols[a]);
                }
            }
            assert(self.wf());
        }
    }

    /// A well-formed table has its global scope.
    pub proof fn lemma_global_scope_exists(&self)
        requires
            self.wf(),
        ensures
            self.scope_seq().len() >= 1,
    {
    }

    /// A symbol just given by `define` is what a lookup from its scope
    /// finds under its name: `lookup_any` always, and the value, type or
    /// module lookup whose kinds include the symbol's.
    pub proof fn lemma_define_then_lookup(
        before: SymbolTable,
        after: SymbolTable,
        scope: ScopeId,
        name: Seq<char>,
        id: SymbolId,
        f: KindFilter,
    )
        requires
            before.wf(),
            after.wf(),
            scope.0 < before.scope_seq().len(),
            spec_find_first(before.symbol_seq(), before.scope_seq()[scope.0 as int].members(), name) is None,
            after.symbol_seq().drop_last() == before.symbol_seq(),
            after.symbol_seq().len() == before.symbol_seq().len() + 1,
            id.0 == before.symbol_seq().len(),
            after.symbol_seq().last().name@ == name,
            after.scope_seq().len() == before.scope_seq().len(),
            after.scope_seq()[scope.0 as int].members() == before.scope_seq()[scope.0 as int].members().push(id),
        ensures
            spec_lookup_any_from(after.scope_seq(), after.symbol_seq(), scope.0 as int, name) == Some(id),
            spec_accepts(f, after.symbol_seq().last().kind) ==> spec_lookup_from(
                after.scope_seq(),
                after.symbol_seq(),
                scope.0 as int,
                name,
                f,
            ) == Some(id),
    {
        let sy = before.symbols@;
        let ty = after.symbols@;
        let members = before.scopes@[scope.0 as int].members();
        assert forall|i: int| 0 <= i < sy.len() implies #[trigger] ty[i] == sy[i] by {
            assert(ty.drop_last()[i] == ty[i]);
        }
        assert forall|k: int| 0 <= k < members.len() implies (#[trigger] members[k]).0 < sy.len() by {
            assert(before.scopes@[scope.0 as int].members()[k] == members[k]);
        }
        lemma_find_first_extend(sy, ty, members, name);
        assert(ty[id.0 as int] == ty.last());
        lemma_find_first_push(ty, members, id, name);
        let m2 = members.push(id);
        assert(m2.last() == id);
    }

    /// The kinds a lookup finds are exactly the value kinds (imported
    /// values, functions, constants, extern functions, parameters, locals
    /// and enum variants), the type kinds (imported types, aliases,
    /// structs, enums, interfaces and type parameters), or modules: a
    /// symbol just defined under one of them is found by that lookup from
    /// its scope.
    pub proof fn lemma_define_then_lookup_by_kind(
        before: SymbolTable,
        after: SymbolTable,
        scope: ScopeId,
        name: Seq<char>,
        id: SymbolId,
    )
        requires
            before.wf(),
            after.wf(),
            scope.0 < before.scope_seq().len(),
            spec_find_first(before.symbol_seq(), before.scope_seq()[scope.0 as int].members(), name) is None,
            after.symbol_seq().drop_last() == before.symbol_seq(),
            after.symbol_seq().len() == before.symbol_seq().len() + 1,
            id.0 == before.symbol_seq().len(),
            after.symbol_seq().last().name@ == name,
            after.scope_seq().len() == before.scope_seq().len(),
            after.scope_seq()[scope.0 as int].members() == before.scope_seq()[scope.0 as int].members().push(id),
        ensures
            (after.symbol_seq().last().kind == SymbolKind::ImportValue || after.symbol_seq().last().kind == SymbolKind::Func || after.symbol_seq().last().kind == SymbolKind::Const || after.symbol_seq().last().kind == SymbolKind::ExternFunc || after.symbol_seq().last().kind == SymbolKind::Param || after.symbol_seq().last().kind == SymbolKind::Local || after.symbol_seq().last().kind == SymbolKind::EnumVariant) ==> spec_lookup_from(
                after.scope_seq(),
                after.symbol_seq(),
                scope.0 as int,
                name,
                KindFilter::Value,
            ) == Some(id),
            (after.symbol_seq().last().kind == SymbolKind::ImportType || after.symbol_seq().last().kind == SymbolKind::TypeAlias || after.symbol_seq().last().kind == SymbolKind::Struct || after.symbol_seq().last().kind == SymbolKind::Enum || after.symbol_seq().last().kind == SymbolKind::Interface || after.symbol_seq().last().kind == SymbolKind::TypeParam) ==> spec_lookup_from(
                after.scope_seq(),
                after.symbol_seq(),
                scope.0 as int,
                name,
                KindFilter::Type,
            ) == Some(id),
            after.symbol_seq().last().kind == SymbolKind::Module ==> spec_lookup_from(
                after.scope_seq(),
                after.symbol_seq(),
                scope.0 as int,
                name,
                KindFilter::Module,
            ) == Some(id),
    {
        SymbolTable::lemma_define_then_lookup(before, after, scope, name, id, KindFilter::Value);
        SymbolTable::lemma_define_then_lookup(before, after, scope, name, id, KindFilter::Type);
        SymbolTable::lemma_define_then_lookup(before, after, scope, name, id, KindFilter::Module);
    }

    /// The global scope.
    pub fn global_scope(&self) -> (r: ScopeId)
        ensures
            r.0 == 0,
    {
        ScopeId(0)
    }

    /// Opens a new scope inside `parent`.
    pub fn new_scope(&mut self, parent: ScopeId) -> (r: ScopeId)
        requires
            old(self).wf(),
            parent.0 < old(self).scope_seq().len(),
            old(self).scope_seq().len() <= u32::MAX,
        ensures
            final(self).wf(),
            r.0 == old(self).scope_seq().len(),
            final(self).scope_seq().len() == old(self).scope_seq().len() + 1,
            final(self).scope_seq().drop_last() == old(self).scope_seq(),
            final(self).scope_seq().last().outer() == Some(parent),
            final(self).scope_seq().last().members() == Seq::<SymbolId>::empty(),
            final(self).symbol_seq() == old(self).symbol_seq(),
            final(self).module_member_map() == old(self).module_member_map(),
            final(self).associated_member_map() == old(self).associated_member_map(),
    {
        let id = ScopeId(self.scopes.len() as u32);
        self.scopes.push(Scope { parent: Some(parent), symbols: Vec::new() });
        assert(self.scope_seq().drop_last() =~= old(self).scope_seq());
        id
    }

    /// The symbol `id`.
    pub fn get(&self, id: SymbolId) -> (r: &Symbol)
        requires
            id.0 < self.symbol_seq().len(),
        ensures
            *r == self.symbol_seq()[id.0 as int],
    {
        &self.symbols[id.0 as usize]
    }

    /// The symbols, in the order they were defined.
    pub fn iter(&self) -> (r: &[Symbol])
        ensures
            r@ == self.symbol_seq(),
    {
        self.symbols.as_slice()
    }

    /// The first symbol of `scope` named `name`.
    fn find_in_scope(&self, scope: ScopeId, name: &str) -> (r: Option<SymbolId>)
        requires
            self.wf(),
            scope.0 < self.scope_seq().len(),
        ensures
            r == spec_find_first(self.symbols@, self.scopes@[scope.0 as int].members(), name@),
    {
        let members = &self.scopes[scope.0 as usize].symbols;
        let ghost ids = members@;
        let mut i: usize = 0;
        assert(ids.skip(0) =~= ids);
        while i < members.len()
            invariant
                self.wf(),
                scope.0 < self.scopes@.len(),
                members@ == ids,
                ids == self.scopes@[scope.0 as int].members(),
                i <= ids.len(),
                spec_find_first(self.symbols@, ids, name@) == spec_find_first(
                    self.symbols@,
                    ids.skip(i as int),
                    name@,
                ),
            decreases ids.len() - i,
        {
            let id = members[i];
            assert(ids.skip(i as int).drop_first() =~= ids.skip(i + 1));
            assert(id.0 < self.symbols@.len());
            if str_eq(self.symbols[id.0 as usize].name.as_str(), name) {
                return Some(id);
            }
            i += 1;
        }
        None
    }

    /// The last symbol of `scope` named `name` whose kind `f` accepts.
    fn find_last_in_scope(&self, scope: ScopeId, name: &str, f: KindFilter) -> (r: Option<
        SymbolId,
    >)
        requires
            self.wf(),
            scope.0 < self.scope_seq().len(),
        ensures
            r == spec_find_last(self.symbols@, self.scopes@[scope.0 as int].members(), name@, f),
    {
        let members = &self.scopes[scope.0 as usize].symbols;
        let ghost ids = members@;
        let mut i: usize = members.len();
        assert(ids.take(i as int) =~= ids);
        while i > 0
            invariant
                self.wf(),
                scope.0 < self.scopes@.len(),
                members@ == ids,
                ids == self.scopes@[scope.0 as int].members(),
                i <= ids.len(),
                spec_find_last(self.symbols@, ids, name@, f) == spec_find_last(
                    self.symbols@,
                    ids.take(i as int),
                    name@,
                    f,
                ),
            decreases i,
        {
            let id = members[i - 1];
            assert(ids.take(i as int).drop_last() =~= ids.take(i - 1));
            assert(id.0 < self.symbols@.len());
            let symbol = &self.symbols[id.0 as usize];
            if str_eq(symbol.name.as_str(), name) && accepts(f, symbol.kind) {
                return Some(id);
            }
            i -= 1;
        }
        None
    }

    /// Scope-chain lookup of a name whose kind `f` accepts.
    fn lookup_with(&self, scope: ScopeId, name: &str, f: KindFilter) -> (r: Option<SymbolId>)
        requires
            self.wf(),
            scope.0 < self.scope_seq().len(),
        ensures
            r == spec_lookup_from(self.scopes@, self.symbols@, scope.0 as int, name@, f),
    {
        let mut current = scope;
        loop
            invariant
                self.wf(),
                current.0 < self.scopes@.len(),
                spec_lookup_from(self.scopes@, self.symbols@, scope.0 as int, name@, f)
                    == spec_lookup_from(self.scopes@, self.symbols@, current.0 as int, name@, f),
            decreases current.0,
        {
            if let Some(id) = self.find_last_in_scope(current, name, f) {
                return Some(id);
            }
            let parent = self.scopes[current.0 as usize].parent;
            assert(self.scopes@[current.0 as int].outer() == parent);
            match parent {
                Some(p) => {
                    current = p;
                },
                None => {
                    return None;
                },
            }
        }
    }

    /// The value visible under `name` from `scope`.
    pub fn lookup_value(&self, scope: ScopeId, name: &str) -> (r: Option<SymbolId>)
        requires
            self.wf(),
            scope.0 < self.scope_seq().len(),
        ensures
            r == spec_lookup_from(
                self.scope_seq(),
                self.symbol_seq(),
                scope.0 as int,
                name@,
                KindFilter::Value,
            ),
    {
        self.lookup_with(scope, name, KindFilter::Value)
    }

    /// The type visible under `name` from `scope`.
    pub fn lookup_type(&self, scope: ScopeId, name: &str) -> (r: Option<SymbolId>)
        requires
            self.wf(),
            scope.0 < self.scope_seq().len(),
        ensures
            r == spec_lookup_from(
                self.scope_seq(),
                self.symbol_seq(),
                scope.0 as int,
                name@,
                KindFilter::Type,
            ),
    {
        self.lookup_with(scope, name, KindFilter::Type)
    }

    /// The module visible under `name` from `scope`.
    pub fn lookup_module(&self, scope: ScopeId, name: &str) -> (r: Option<SymbolId>)
        requires
            self.wf(),
            scope.0 < self.scope_seq().len(),
        ensures
            r == spec_lookup_from(
                self.scope_seq(),
                self.symbol_seq(),
                scope.0 as int,
                name@,
                KindFilter::Module,
            ),
    {
        self.lookup_with(scope, name, KindFilter::Module)
    }

    /// The symbol of any kind visible under `name` from `scope`.
    pub fn lookup_any(&self, scope: ScopeId, name: &str) -> (r: Option<SymbolId>)
        requires
            self.wf(),
            scope.0 < self.scope_seq().len(),
        ensures
            r == spec_lookup_any_from(self.scope_seq(), self.symbol_seq(), scope.0 as int, name@),
    {
        let mut current = scope;
        loop
            invariant
                self.wf(),
                current.0 < self.scopes@.len(),
                spec_lookup_any_from(self.scopes@, self.symbols@, scope.0 as int, name@)
                    == spec_lookup_any_from(self.scopes@, self.symbols@, current.0 as int, name@),
            decreases current.0,
        {
            if let Some(id) = self.find_in_scope(current, name) {
                return Some(id);
            }
            let parent = self.scopes[current.0 as usize].parent;
            assert(self.scopes@[current.0 as int].outer() == parent);
            match parent {
                Some(p) => {
                    current = p;
                },
                None => {
                    return None;
                },
            }
        }
    }

    /// Defines `name` in `scope`; refused with the id of the first symbol
    /// of that scope with the same name, if there is one.
    pub fn define(&mut self, scope: ScopeId, name: &str, kind: SymbolKind, span: Span) -> (r: Result<
        SymbolId,
        SymbolId,
    >)
        requires
            old(self).wf(),
            scope.0 < old(self).scope_seq().len(),
            old(self).symbol_seq().len() <= u32::MAX,
        ensures
            final(self).wf(),
            final(self).module_member_map() == old(self).module_member_map(),
            final(self).associated_member_map() == old(self).associated_member_map(),
            match r {
                Err(existing) => {
                    &&& spec_find_first(
                        old(self).symbol_seq(),
                        old(self).scope_seq()[scope.0 as int].members(),
                        name@,
                    ) == Some(existing)
                    &&& final(self).symbol_seq() == old(self).symbol_seq()
                    &&& final(self).scope_seq() == old(self).scope_seq()
                },
                Ok(id) => {
                    &&& spec_find_first(
                        old(self).symbol_seq(),
                        old(self).scope_seq()[scope.0 as int].members(),
                        name@,
                    ) is None
                    &&& id.0 == old(self).symbol_seq().len()
                    &&& final(self).symbol_seq().drop_last() == old(self).symbol_seq()
                    &&& final(self).symbol_seq().len() == old(self).symbol_seq().len() + 1
                    &&& final(self).symbol_seq().last().id == id
                    &&& final(self).symbol_seq().last().name@ == name@
                    &&& final(self).symbol_seq().last().kind == kind
                    &&& final(self).symbol_seq().last().span == span
                    &&& final(self).symbol_seq().last().scope == scope
                    &&& final(self).scope_seq().len() == old(self).scope_seq().len()
                    &&& final(self).scope_seq()[scope.0 as int].members() == old(self).scope_seq()[scope.0 as int].members().push(id)
                    &&& final(self).scope_seq()[scope.0 as int].outer() == old(self).scope_seq()[scope.0 as int].outer()
                    &&& forall|i: int|
                        0 <= i < old(self).scope_seq().len() && i != scope.0 ==> final(self).scope_seq()[i] == old(self).scope_seq()[i]
                },
            },
    {
        if let Some(existing) = self.find_in_scope(scope, name) {
            return Err(existing);
        }
        let id = SymbolId(self.symbols.len() as u32);
        self.symbols.push(Symbol { id, name: name.to_owned(), kind, span, scope });
        let ghost old_scopes = self.scopes@;
        self.scopes[scope.0 as usize].symbols.push(id);
        proof {
            let sc = self.scopes@;
            assert forall|i: int, k: int|
                0 <= i < sc.len() && 0 <= k < sc[i].members().len() implies (
                #[trigger] sc[i].members()[k]).0 < self.symbols@.len() by {
                if i != scope.0 {
                    assert(sc[i] == old_scopes[i]);
                } else if k < old_scopes[i].members().len() {
                    assert(sc[i].members()[k] == old_scopes[i].members()[k]);
                }
            }
            assert(self.symbols@.drop_last() =~= old(self).symbols@);
        }
        Ok(id)
    }

    /// The symbols of `scope` whose kind `f` accepts, in declaration order.
    fn push_candidates<'a>(&'a self, scope: ScopeId, f: KindFilter, out: &mut Vec<&'a Symbol>)
        requires
            self.wf(),
            scope.0 < self.scope_seq().len(),
        ensures
            final(out)@.len() == old(out)@.len() + self.scope_seq()[scope.0 as int].members().filter(
                kind_pred(self.symbol_seq(), f),
            ).len(),
            forall|k: int| 0 <= k < old(out)@.len() ==> final(out)@[k] == old(out)@[k],
            forall|k: int|
                0 <= k < final(out)@.len() - old(out)@.len() ==> *final(out)@[old(out)@.len() + k]
                    == self.symbol_seq()[self.scope_seq()[scope.0 as int].members().filter(
                    kind_pred(self.symbol_seq(), f),
                )[k].0 as int],
    {
        let members = &self.scopes[scope.0 as usize].symbols;
        let ghost ids = members@;
        let ghost p = kind_pred(self.symbols@, f);
        let ghost base = out@.len();
        let mut i: usize = 0;
        assert(ids.take(0).filter(p) =~= Seq::<SymbolId>::empty()) by {
            reveal(Seq::filter);
        }
        while i < members.len()
            invariant
                self.wf(),
                scope.0 < self.scopes@.len(),
                members@ == ids,
                ids == self.scopes@[scope.0 as int].members(),
                p == kind_pred(self.symbols@, f),
                i <= ids.len(),
                base <= out@.len(),
                out@.len() == base + ids.take(i as int).filter(p).len(),
                forall|k: int| 0 <= k < base ==> out@[k] == old(out)@[k],
                old(out)@.len() == base,
                forall|k: int|
                    0 <= k < out@.len() - base ==> *out@[base + k] == self.symbols@[ids.take(
                        i as int,
                    ).filter(p)[k].0 as int],
            decreases ids.len() - i,
        {
            let id = members[i];
            assert(ids.take(i + 1) =~= ids.take(i as int).push(id));
            proof {
                ids.take(i as int).lemma_filter_push(id, p);
            }
            assert(id.0 < self.symbols@.len());
            let symbol = &self.symbols[id.0 as usize];
            if accepts(f, symbol.kind) {
                out.push(symbol);
            }
            i += 1;
        }
        assert(ids.take(ids.len() as int) =~= ids);
    }

    /// The symbols visible from `scope` whose kind `f` accepts.
    fn candidates(&self, scope: ScopeId, f: KindFilter) -> (r: Vec<&Symbol>)
        requires
            self.wf(),
            scope.0 < self.scope_seq().len(),
        ensures
            r@.len() == spec_candidates_from(
                self.scope_seq(),
                self.symbol_seq(),
                scope.0 as int,
                f,
            ).len(),
            forall|k: int|
                0 <= k < r@.len() ==> *r@[k] == self.symbol_seq()[spec_candidates_from(
                    self.scope_seq(),
                    self.symbol_seq(),
                    scope.0 as int,
                    f,
                )[k].0 as int],
    {
        let mut out: Vec<&Symbol> = Vec::new();
        let mut current = scope;
        let ghost whole = spec_candidates_from(self.scopes@, self.symbols@, scope.0 as int, f);
        let ghost mut done: Seq<SymbolId> = Seq::empty();
        assert(whole =~= done + spec_candidates_from(
            self.scopes@,
            self.symbols@,
            current.0 as int,
            f,
        ));
        loop
            invariant
                self.wf(),
                current.0 < self.scopes@.len(),
                whole == spec_candidates_from(self.scopes@, self.symbols@, scope.0 as int, f),
                whole == done + spec_candidates_from(
                    self.scopes@,
                    self.symbols@,
                    current.0 as int,
                    f,
                ),
                out@.len() == done.len(),
                forall|k: int| 0 <= k < out@.len() ==> *out@[k] == self.symbols@[done[k].0 as int],
            decreases current.0,
        {
            let ghost before = out@;
            let ghost here = self.scopes@[current.0 as int].members().filter(
                kind_pred(self.symbols@, f),
            );
            self.push_candidates(current, f, &mut out);
            proof {
                assert forall|k: int| 0 <= k < out@.len() implies *out@[k] == self.symbols@[(done
                    + here)[k].0 as int] by {
                    if k < before.len() {
                        assert(out@[k] == before[k]);
                    } else {
                        assert(out@[before.len() + (k - before.len())] == out@[k]);
                    }
                }
            }
            let parent = self.scopes[current.0 as usize].parent;
            assert(self.scopes@[current.0 as int].outer() == parent);
            match parent {
                Some(p) => {
                    proof {
                        assert(whole =~= (done + here) + spec_candidates_from(
                            self.scopes@,
                            self.symbols@,
                            p.0 as int,
                            f,
                        ));
                        done = done + here;
                    }
                    current = p;
                },
                None => {
                    assert(whole =~= done + here);
                    return out;
                },
            }
        }
    }

    /// The values visible from `scope`, innermost scope first.
    pub fn value_candidates(&self, scope: ScopeId) -> (r: Vec<&Symbol>)
        requires
            self.wf(),
            scope.0 < self.scope_seq().len(),
        ensures
            r@.len() == spec_candidates_from(
                self.scope_seq(),
                self.symbol_seq(),
                scope.0 as int,
                KindFilter::Value,
            ).len(),
            forall|k: int|
                0 <= k < r@.len() ==> *r@[k] == self.symbol_seq()[spec_candidates_from(
                    self.scope_seq(),
                    self.symbol_seq(),
                    scope.0 as int,
                    KindFilter::Value,
                )[k].0 as int],
    {
        self.candidates(scope, KindFilter::Value)
    }

    /// The types visible from `scope`, innermost scope first.
    pub fn type_candidates(&self, scope: ScopeId) -> (r: Vec<&Symbol>)
        requires
            self.wf(),
            scope.0 < self.scope_seq().len(),
        ensures
            r@.len() == spec_candidates_from(
                self.scope_seq(),
                self.symbol_seq(),
                scope.0 as int,
                KindFilter::Type,
            ).len(),
            forall|k: int|
                0 <= k < r@.len() ==> *r@[k] == self.symbol_seq()[spec_candidates_from(
                    self.scope_seq(),
                    self.symbol_seq(),
                    scope.0 as int,
                    KindFilter::Type,
                )[k].0 as int],
    {
        self.candidates(scope, KindFilter::Type)
    }

    /// Defines `member` of module `module`: the symbol `module.member` of
    /// kind `NamespaceMember` in the global scope, recorded among the
    /// module's members; refused like `define` when the global scope
    /// already has that name.
    pub fn define_module_member(&mut self, module: &str, member: &str, span: Span) -> (r: Result<
        SymbolId,
        SymbolId,
    >)
        requires
            old(self).wf(),
            old(self).symbol_seq().len() <= u32::MAX,
        ensures
            final(self).wf(),
            final(self).associated_member_map() == old(self).associated_member_map(),
            match r {
                Err(existing) => {
                    &&& spec_find_first(
                        old(self).symbol_seq(),
                        old(self).scope_seq()[0].members(),
                        spec_qualified(module@, member@),
                    ) == Some(existing)
                    &&& final(self).symbol_seq() == old(self).symbol_seq()
                    &&& final(self).scope_seq() == old(self).scope_seq()
                    &&& final(self).module_member_map() == old(self).module_member_map()
                },
                Ok(id) => {
                    &&& spec_find_first(
                        old(self).symbol_seq(),
                        old(self).scope_seq()[0].members(),
                        spec_qualified(module@, member@),
                    ) is None
                    &&& id.0 == old(self).symbol_seq().len()
                    &&& final(self).symbol_seq().drop_last() == old(self).symbol_seq()
                    &&& final(self).symbol_seq().len() == old(self).symbol_seq().len() + 1
                    &&& final(self).symbol_seq().last().id == id
                    &&& final(self).symbol_seq().last().name@ == spec_qualified(module@, member@)
                    &&& final(self).symbol_seq().last().kind == SymbolKind::NamespaceMember
                    &&& final(self).symbol_seq().last().span == span
                    &&& final(self).symbol_seq().last().scope == ScopeId(0)
                    &&& final(self).scope_seq().len() == old(self).scope_seq().len()
                    &&& final(self).scope_seq()[0].members() == old(self).scope_seq()[0].members().push(id)
                    &&& forall|i: int|
                        1 <= i < old(self).scope_seq().len() ==> final(self).scope_seq()[i] == old(self).scope_seq()[i]
                    &&& final(self).module_member_map() == spec_add_member(
                        old(self).module_member_map(),
                        module@,
                        member@,
                        id,
                    )
                },
            },
    {
        let mut full = module.to_owned();
        full.append(".");
        full.append(member);
        let global = self.global_scope();
        let id = match self.define(global, full.as_str(), SymbolKind::NamespaceMember, span) {
            Ok(id) => id,
            Err(existing) => {
                return Err(existing);
            },
        };
        let mut members = match index_remove(&mut self.module_members, module) {
            Some(m) => m,
            None => names_new(),
        };
        names_insert(&mut members, member.to_owned(), id);
        index_insert(&mut self.module_members, module.to_owned(), members);
        proof {
            assert(self.module_member_map() =~= spec_add_member(
                old(self).module_member_map(),
                module@,
                member@,
                id,
            ));
        }
        Ok(id)
    }

    /// The member `member` of module `module`, if defined.
    pub fn lookup_module_member(&self, module: &str, member: &str) -> (r: Option<SymbolId>)
        ensures
            r == spec_member(self.module_member_map(), module@, member@),
    {
        match index_get(&self.module_members, module) {
            Some(members) => names_get(members, member),
            None => None,
        }
    }

    /// Defines `member` of type `ty` (a method, say): the symbol
    /// `ty.member` of kind `AssociatedFunc` in the global scope, recorded
    /// among the type's members; refused like `define` when the global
    /// scope already has that name.
    pub fn define_associated_member(&mut self, ty: &str, member: &str, span: Span) -> (r: Result<
        SymbolId,
        SymbolId,
    >)
        requires
            old(self).wf(),
            old(self).symbol_seq().len() <= u32::MAX,
        ensures
            final(self).wf(),
            final(self).module_member_map() == old(self).module_member_map(),
            match r {
                Err(existing) => {
                    &&& spec_find_first(
                        old(self).symbol_seq(),
                        old(self).scope_seq()[0].members(),
                        spec_qualified(ty@, member@),
                    ) == Some(existing)
                    &&& final(self).symbol_seq() == old(self).symbol_seq()
                    &&& final(self).scope_seq() == old(self).scope_seq()
                    &&& final(self).associated_member_map() == old(self).associated_member_map()
                },
                Ok(id) => {
                    &&& spec_find_first(
                        old(self).symbol_seq(),
                        old(self).scope_seq()[0].members(),
                        spec_qualified(ty@, member@),
                    ) is None
                    &&& id.0 == old(self).symbol_seq().len()
                    &&& final(self).symbol_seq().drop_last() == old(self).symbol_seq()
                    &&& final(self).symbol_seq().len() == old(self).symbol_seq().len() + 1
                    &&& final(self).symbol_seq().last().id == id
                    &&& final(self).symbol_seq().last().name@ == spec_qualified(ty@, member@)
                    &&& final(self).symbol_seq().last().kind == SymbolKind::AssociatedFunc
                    &&& final(self).symbol_seq().last().span == span
                    &&& final(self).symbol_seq().last().scope == ScopeId(0)
                    &&& final(self).scope_seq().len() == old(self).scope_seq().len()
                    &&& final(self).scope_seq()[0].members() == old(self).scope_seq()[0].members().push(id)
                    &&& forall|i: int|
                        1 <= i < old(self).scope_seq().len() ==> final(self).scope_seq()[i] == old(self).scope_seq()[i]
                    &&& final(self).associated_member_map() == spec_add_member(
                        old(self).associated_member_map(),
                        ty@,
                        member@,
                        id,
                    )
                },
            },
    {
        let mut full = ty.to_owned();
        full.append(".");
        full.append(member);
        let global = self.global_scope();
        let id = match self.define(global, full.as_str(), SymbolKind::AssociatedFunc, span) {
            Ok(id) => id,
            Err(existing) => {
                return Err(existing);
            },
        };
        let mut members = match index_remove(&mut self.associated_members, ty) {
            Some(m) => m,
            None => names_new(),
        };
        names_insert(&mut members, member.to_owned(), id);
        index_insert(&mut self.associated_members, ty.to_owned(), members);
        proof {
            assert(self.associated_member_map() =~= spec_add_member(
                old(self).associated_member_map(),
                ty@,
                member@,
                id,
            ));
        }
        Ok(id)
    }

    /// The associated member `member` of type `ty`, if defined.
    pub fn lookup_associated_member(&self, ty: &str, member: &str) -> (r: Option<SymbolId>)
        ensures
            r == spec_member(self.associated_member_map(), ty@, member@),
    {
        match index_get(&self.associated_members, ty) {
            Some(members) => names_get(members, member),
            None => None,
        }
    }
}

impl Default for SymbolTable {
    fn default() -> (r: Self)
        ensures
            r.wf(),
            r.scope_seq().len() == 1,
            r.scope_seq()[0].outer() is None,
            r.scope_seq()[0].members() == Seq::<SymbolId>::empty(),
            r.symbol_seq() == Seq::<Symbol>::empty(),
            r.module_member_map() == Map::<Seq<char>, Map<Seq<char>, SymbolId>>::empty(),
            r.associated_member_map() == Map::<Seq<char>, Map<Seq<char>, SymbolId>>::empty(),
    {
        SymbolTable::new()
    }
}

} // verus!
