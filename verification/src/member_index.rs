use vstd::prelude::*;

use fxhash::FxHashMap;

use crate::ids::SymbolId;

verus! {

/// The hasher of `fxhash`, declared so that its maps can stand in
/// signatures; nothing is assumed of its contents.
#[verifier::external_type_specification]
#[verifier::external_body]
pub struct ExFxHasher(fxhash::FxHasher);

/// `std::hash::BuildHasherDefault`, the hasher builder of `fxhash` maps,
/// declared so that those maps can stand in signatures; nothing is assumed
/// of its contents.
#[verifier::external_type_specification]
#[verifier::external_body]
#[verifier::reject_recursive_types(H)]
pub struct ExBuildHasherDefault<H>(std::hash::BuildHasherDefault<H>);

/// Member name to symbol, hashed with `fxhash`.
pub type MemberNames = FxHashMap<String, SymbolId>;

/// Owner name (a module or a type) to its members, hashed with `fxhash`.
pub type MemberIndex = FxHashMap<String, MemberNames>;

/// What a member-name map holds, keyed by the characters of each name.
pub uninterp spec fn names_contents(m: MemberNames) -> Map<Seq<char>, SymbolId>;

/// What an owner index holds: for each owner name, the contents of its
/// member-name map.
pub uninterp spec fn index_contents(m: MemberIndex) -> Map<Seq<char>, Map<Seq<char>, SymbolId>>;

/// The empty member map.
pub open spec fn no_names() -> Map<Seq<char>, SymbolId> {
    Map::empty()
}

/// The empty owner index.
pub open spec fn no_owners() -> Map<Seq<char>, Map<Seq<char>, SymbolId>> {
    Map::empty()
}

/// An empty member-name map.
///
/// Trusted: `<FxHashMap as Default>::default` builds a map with no entry.
#[verifier::external_body]
pub(crate) fn names_new() -> (r: MemberNames)
    ensures
        names_contents(r) == no_names(),
{
    FxHashMap::default()
}

/// Sets `member` to `id`.
///
/// Trusted: `HashMap::insert` replaces the entry of an equal key or adds
/// one; two `String` keys are equal exactly when their characters are.
#[verifier::external_body]
pub(crate) fn names_insert(m: &mut MemberNames, member: String, id: SymbolId)
    ensures
        names_contents(*final(m)) == names_contents(*old(m)).insert(member@, id),
{
    m.insert(member, id);
}

/// The symbol of `member`, if present.
///
/// Trusted: `HashMap::get` finds the entry whose key equals `member`.
#[verifier::external_body]
pub(crate) fn names_get(m: &MemberNames, member: &str) -> (r: Option<SymbolId>)
    ensures
        r == (if names_contents(*m).contains_key(member@) {
            Some(names_contents(*m)[member@])
        } else {
            None
        }),
{
    m.get(member).copied()
}

/// The entries of a member-name map, in the map's iteration order.
///
/// Trusted: `HashMap::into_iter` yields each entry exactly once; the order
/// depends on the hashes and is left open.
#[verifier::external_body]
pub(crate) fn names_entries(m: MemberNames) -> (r: Vec<(String, SymbolId)>)
    ensures
        forall|i: int, j: int| 0 <= i < j < r@.len() ==> r@[i].0@ != r@[j].0@,
        forall|i: int|
            0 <= i < r@.len() ==> names_contents(m).contains_key(#[trigger] r@[i].0@)
                && names_contents(m)[r@[i].0@] == r@[i].1,
        forall|k: Seq<char>|
            names_contents(m).contains_key(k) ==> exists|i: int|
                0 <= i < r@.len() && #[trigger] r@[i].0@ == k,
{
    m.into_iter().collect()
}

/// An empty owner index.
///
/// Trusted: `<FxHashMap as Default>::default` builds a map with no entry.
#[verifier::external_body]
pub(crate) fn index_new() -> (r: MemberIndex)
    ensures
        index_contents(r) == no_owners(),
{
    FxHashMap::default()
}

/// Sets the members of `owner`.
///
/// Trusted: `HashMap::insert` replaces the entry of an equal key or adds
/// one.
#[verifier::external_body]
pub(crate) fn index_insert(m: &mut MemberIndex, owner: String, members: MemberNames)
    ensures
        index_contents(*final(m)) == index_contents(*old(m)).insert(
            owner@,
            names_contents(members),
        ),
{
    m.insert(owner, members);
}

/// Takes the members of `owner` out of the index, if present.
///
/// Trusted: `HashMap::remove` removes and returns the entry whose key
/// equals `owner`.
#[verifier::external_body]
pub(crate) fn index_remove(m: &mut MemberIndex, owner: &str) -> (r: Option<MemberNames>)
    ensures
        index_contents(*final(m)) == index_contents(*old(m)).remove(owner@),
        match r {
            Some(members) => index_contents(*old(m)).contains_key(owner@) && names_contents(
                members,
            ) == index_contents(*old(m))[owner@],
            None => !index_contents(*old(m)).contains_key(owner@),
        },
{
    m.remove(owner)
}

/// The members of `owner`, if present.
///
/// Trusted: `HashMap::get` finds the entry whose key equals `owner`.
#[verifier::external_body]
pub(crate) fn index_get<'a>(m: &'a MemberIndex, owner: &str) -> (r: Option<&'a MemberNames>)
    ensures
        match r {
            Some(members) => index_contents(*m).contains_key(owner@) && names_contents(*members)
                == index_contents(*m)[owner@],
            None => !index_contents(*m).contains_key(owner@),
        },
{
    m.get(owner)
}

/// The entries of an owner index, in the index's iteration order.
///
/// Trusted: `HashMap::into_iter` yields each entry exactly once; the order
/// depends on the hashes and is left open.
#[verifier::external_body]
pub(crate) fn index_entries(m: MemberIndex) -> (r: Vec<(String, MemberNames)>)
    ensures
        forall|i: int, j: int| 0 <= i < j < r@.len() ==> r@[i].0@ != r@[j].0@,
        forall|i: int|
            0 <= i < r@.len() ==> index_contents(m).contains_key(#[trigger] r@[i].0@)
                && index_contents(m)[r@[i].0@] == names_contents(r@[i].1),
        forall|k: Seq<char>|
            index_contents(m).contains_key(k) ==> exists|i: int|
                0 <= i < r@.len() && #[trigger] r@[i].0@ == k,
{
    m.into_iter().collect()
}

} // verus!
