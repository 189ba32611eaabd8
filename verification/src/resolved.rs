use vstd::prelude::*;
use vstd::std_specs::convert::FromSpecImpl;

use crate::ids::{Span, SymbolId};

verus! {

/// The key under which a syntax node's resolution is recorded: the byte
/// range of its span.
#[derive(Debug, Clone, Copy, PartialEq, Eq, Hash, Structural)]
pub struct NodeKey {
    pub start: usize,
    pub end: usize,
}

impl From<Span> for NodeKey {
    fn from(span: Span) -> (r: Self) {
        NodeKey { start: span.start, end: span.end }
    }
}

impl FromSpecImpl<Span> for NodeKey {
    open spec fn obeys_from_spec() -> bool {
        true
    }

    open spec fn from_spec(span: Span) -> NodeKey {
        NodeKey { start: span.start, end: span.end }
    }
}

/// The key of a span.
pub open spec fn key_of(span: Span) -> NodeKey {
    NodeKey { start: span.start, end: span.end }
}

/// A map from node keys to symbols, kept as a list of entries in which no
/// key occurs twice.
#[derive(Debug, Clone)]
pub struct NodeMap {
    entries: Vec<(NodeKey, SymbolId)>,
}

impl View for NodeMap {
    type V = Map<NodeKey, SymbolId>;

    closed spec fn view(&self) -> Map<NodeKey, SymbolId> {
        Map::new(
            |k: NodeKey| exists|i: int| 0 <= i < self.entries@.len() && #[trigger] self.entries@[i].0 == k,
            |k: NodeKey|
                self.entries@[choose|i: int| 0 <= i < self.entries@.len() && #[trigger] self.entries@[i].0 == k].1,
        )
    }
}

impl NodeMap {
    /// No key occurs in two entries.
    pub closed spec fn wf(&self) -> bool {
        forall|i: int, j: int|
            0 <= i < j < self.entries@.len() ==> #[trigger] self.entries@[i].0 != #[trigger] self.entries@[j].0
    }

    /// The empty map.
    pub fn new() -> (r: NodeMap)
        ensures
            r.wf(),
            r@ == Map::<NodeKey, SymbolId>::empty(),
    {
        let r = NodeMap { entries: Vec::new() };
        assert(r@ =~= Map::<NodeKey, SymbolId>::empty());
        r
    }

    /// The position of the entry for `key`, if there is one.
    fn position(&self, key: NodeKey) -> (r: Option<usize>)
        requires
            self.wf(),
        ensures
            match r {
                None => !self@.contains_key(key),
                Some(i) => i < self.entries@.len() && self.entries@[i as int].0 == key,
            },
    {
        let mut i: usize = 0;
        while i < self.entries.len()
            invariant
                i <= self.entries@.len(),
                forall|j: int| 0 <= j < i ==> self.entries@[j].0 != key,
            decreases self.entries@.len() - i,
        {
            if self.entries[i].0 == key {
                return Some(i);
            }
            i += 1;
        }
        None
    }

    /// The symbol recorded for `key`.
    pub fn get(&self, key: NodeKey) -> (r: Option<SymbolId>)
        requires
            self.wf(),
        ensures
            r == (if self@.contains_key(key) {
                Some(self@[key])
            } else {
                None
            }),
    {
        match self.position(key) {
            None => None,
            Some(i) => {
                proof {
                    self.lemma_entry(i as int);
                }
                Some(self.entries[i].1)
            },
        }
    }

    proof fn lemma_entry(&self, i: int)
        requires
            self.wf(),
            0 <= i < self.entries@.len(),
        ensures
            self@.contains_key(self.entries@[i].0),
            self@[self.entries@[i].0] == self.entries@[i].1,
    {
        let k = self.entries@[i].0;
        assert(self@.dom().contains(k));
        let c = choose|j: int| 0 <= j < self.entries@.len() && #[trigger] self.entries@[j].0 == k;
        assert(c == i);
    }

    /// Records `symbol` for `key`, replacing what was recorded for it.
    pub fn insert(&mut self, key: NodeKey, symbol: SymbolId)
        requires
            old(self).wf(),
        ensures
            final(self).wf(),
            final(self)@ == old(self)@.insert(key, symbol),
    {
        let ghost before = self@;
        match self.position(key) {
            Some(i) => {
                self.entries.set(i, (key, symbol));
                proof {
                    assert forall|k: NodeKey| #[trigger] self@.contains_key(k) == before.insert(
                        key,
                        symbol,
                    ).contains_key(k) by {
                        if exists|j: int| 0 <= j < self.entries@.len() && #[trigger] self.entries@[j].0 == k {
                            let j = choose|j: int| 0 <= j < self.entries@.len() && #[trigger] self.entries@[j].0 == k;
                            if j != i {
                                assert(old(self).entries@[j].0 == k);
                            }
                        }
                        if before.contains_key(k) {
                            let j = choose|j: int| 0 <= j < old(self).entries@.len() && #[trigger] old(self).entries@[j].0 == k;
                            assert(self.entries@[j].0 == k);
                        }
                    }
                    assert forall|k: NodeKey| #[trigger] self@.contains_key(k) implies self@[k]
                        == before.insert(key, symbol)[k] by {
                        let j = choose|j: int| 0 <= j < self.entries@.len() && #[trigger] self.entries@[j].0 == k;
                        self.lemma_entry(j);
                        if j != i {
                            old(self).lemma_entry(j);
                        }
                    }
                    assert(self@ =~= before.insert(key, symbol));
                }
            },
            None => {
                self.entries.push((key, symbol));
                proof {
                    let n = self.entries@.len() - 1;
                    assert forall|k: NodeKey| #[trigger] self@.contains_key(k) == before.insert(
                        key,
                        symbol,
                    ).contains_key(k) by {
                        if k == key {
                            assert(self.entries@[n].0 == k);
                        }
                        if exists|j: int| 0 <= j < self.entries@.len() && #[trigger] self.entries@[j].0 == k {
                            let j = choose|j: int| 0 <= j < self.entries@.len() && #[trigger] self.entries@[j].0 == k;
                            if j != n {
                                assert(old(self).entries@[j].0 == k);
                            }
                        }
                        if before.contains_key(k) {
                            let j = choose|j: int| 0 <= j < old(self).entries@.len() && #[trigger] old(self).entries@[j].0 == k;
                            assert(self.entries@[j].0 == k);
                        }
                    }
                    assert forall|k: NodeKey| #[trigger] self@.contains_key(k) implies self@[k]
                        == before.insert(key, symbol)[k] by {
                        let j = choose|j: int| 0 <= j < self.entries@.len() && #[trigger] self.entries@[j].0 == k;
                        self.lemma_entry(j);
                        if j != n {
                            old(self).lemma_entry(j);
                        }
                    }
                    assert(self@ =~= before.insert(key, symbol));
                }
            },
        }
    }
}

/// What name resolution found: for each definition site, value reference
/// and type reference, the symbol it stands for, keyed by its span.
#[derive(Debug, Clone)]
pub struct ResolvedNames {
    definitions: NodeMap,
    value_refs: NodeMap,
    type_refs: NodeMap,
}

impl Default for ResolvedNames {
    fn default() -> (r: Self)
        ensures
            r.wf(),
            r.definitions() == Map::<NodeKey, SymbolId>::empty(),
            r.value_refs() == Map::<NodeKey, SymbolId>::empty(),
            r.type_refs() == Map::<NodeKey, SymbolId>::empty(),
    {
        ResolvedNames::new()
    }
}

impl ResolvedNames {
    /// The three maps are well formed.
    pub closed spec fn wf(&self) -> bool {
        self.definitions.wf() && self.value_refs.wf() && self.type_refs.wf()
    }

    /// The symbol defined at each recorded site.
    pub closed spec fn definitions(&self) -> Map<NodeKey, SymbolId> {
        self.definitions@
    }

    /// The symbol each recorded value reference resolves to.
    pub closed spec fn value_refs(&self) -> Map<NodeKey, SymbolId> {
        self.value_refs@
    }

    /// The symbol each recorded type reference resolves to.
    pub closed spec fn type_refs(&self) -> Map<NodeKey, SymbolId> {
        self.type_refs@
    }

    /// Nothing recorded.
    pub fn new() -> (r: Self)
        ensures
            r.wf(),
            r.definitions() == Map::<NodeKey, SymbolId>::empty(),
            r.value_refs() == Map::<NodeKey, SymbolId>::empty(),
            r.type_refs() == Map::<NodeKey, SymbolId>::empty(),
    {
        ResolvedNames { definitions: NodeMap::new(), value_refs: NodeMap::new(), type_refs: NodeMap::new() }
    }

    /// Records that `symbol` is defined at `span`.
    pub fn define(&mut self, span: Span, symbol: SymbolId)
        requires
            old(self).wf(),
        ensures
            final(self).wf(),
            final(self).definitions() == old(self).definitions().insert(key_of(span), symbol),
            final(self).value_refs() == old(self).value_refs(),
            final(self).type_refs() == old(self).type_refs(),
    {
        self.definitions.insert(NodeKey::from(span), symbol);
    }

    /// Records that the value reference at `span` resolves to `symbol`.
    pub fn value_ref(&mut self, span: Span, symbol: SymbolId)
        requires
            old(self).wf(),
        ensures
            final(self).wf(),
            final(self).value_refs() == old(self).value_refs().insert(key_of(span), symbol),
            final(self).definitions() == old(self).definitions(),
            final(self).type_refs() == old(self).type_refs(),
    {
        self.value_refs.insert(NodeKey::from(span), symbol);
    }

    /// Records that the type reference at `span` resolves to `symbol`.
    pub fn type_ref(&mut self, span: Span, symbol: SymbolId)
        requires
            old(self).wf(),
        ensures
            final(self).wf(),
            final(self).type_refs() == old(self).type_refs().insert(key_of(span), symbol),
            final(self).definitions() == old(self).definitions(),
            final(self).value_refs() == old(self).value_refs(),
    {
        self.type_refs.insert(NodeKey::from(span), symbol);
    }

    /// The symbol defined at `key`, if one was recorded.
    pub fn definition_at(&self, key: NodeKey) -> (r: Option<SymbolId>)
        requires
            self.wf(),
        ensures
            r == (if self.definitions().contains_key(key) {
                Some(self.definitions()[key])
            } else {
                None
            }),
    {
        self.definitions.get(key)
    }

    /// The symbol the value reference at `key` resolves to, if recorded.
    pub fn value_ref_at(&self, key: NodeKey) -> (r: Option<SymbolId>)
        requires
            self.wf(),
        ensures
            r == (if self.value_refs().contains_key(key) {
                Some(self.value_refs()[key])
            } else {
                None
            }),
    {
        self.value_refs.get(key)
    }

    /// The symbol the type reference at `key` resolves to, if recorded.
    pub fn type_ref_at(&self, key: NodeKey) -> (r: Option<SymbolId>)
        requires
            self.wf(),
        ensures
            r == (if self.type_refs().contains_key(key) {
                Some(self.type_refs()[key])
            } else {
                None
            }),
    {
        self.type_refs.get(key)
    }
}

} // verus!
