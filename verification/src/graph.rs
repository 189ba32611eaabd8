use vstd::prelude::*;

use rustc_hash::FxHashMap;

use crate::ar_type::TyView;
use crate::mangle::{
    collapse_separators, demangled, framed_body, is_marker_at, lemma_marker_from_skip, marker_from,
    trim_end_underscores, trim_start_underscores, trim_underscores,
};
use crate::ids::SymbolId;
use crate::symbol_table::{Symbol, SymbolTable};
use crate::type_display::{mangle_ty, ty_ids_below};
use crate::type_interner::{TypeId, TypeInterner};

verus! {

/// The hasher builder of `rustc_hash` maps, declared so that those maps can
/// stand in signatures; nothing is assumed of its contents.
#[verifier::external_type_specification]
#[verifier::external_body]
pub struct ExFxBuildHasher(rustc_hash::FxBuildHasher);

/// Identifies a node of the instantiation graph: its position.
#[derive(Debug, Clone, Copy, PartialEq, Eq, Hash, Structural)]
pub struct InstantiationNodeId(pub u32);

impl InstantiationNodeId {
    pub fn from_usize(n: usize) -> (r: InstantiationNodeId)
        requires
            n <= u32::MAX,
        ensures
            r.0 == n,
    {
        InstantiationNodeId(n as u32)
    }

    pub fn as_usize(self) -> (r: usize)
        ensures
            r == self.0,
    {
        self.0 as usize
    }
}

/// A monomorphic instance of a generic symbol: the symbol and its
/// concrete type arguments.
#[derive(Debug, PartialEq, Eq, Hash)]
pub struct InstantiationKey {
    pub symbol: SymbolId,
    pub type_args: Vec<TypeId>,
}

impl Clone for InstantiationKey {
    fn clone(&self) -> (r: Self)
        ensures
            r.symbol == self.symbol,
            r.type_args@ == self.type_args@,
    {
        let mut type_args: Vec<TypeId> = Vec::new();
        let mut i: usize = 0;
        while i < self.type_args.len()
            invariant
                i <= self.type_args@.len(),
                type_args@ == self.type_args@.take(i as int),
            decreases self.type_args@.len() - i,
        {
            type_args.push(self.type_args[i]);
            i += 1;
            assert(type_args@ =~= self.type_args@.take(i as int));
        }
        assert(self.type_args@.take(i as int) =~= self.type_args@);
        InstantiationKey { symbol: self.symbol, type_args }
    }
}

/// A key as plain values: the symbol's index and the type ids.
pub open spec fn key_view(k: InstantiationKey) -> (u32, Seq<u32>) {
    (k.symbol.0, k.type_args@.map_values(|t: TypeId| t.0))
}

/// A node of the graph: one monomorphic copy, its mangled name and the
/// instances it calls.
#[derive(Debug, Clone)]
pub struct InstantiationNode {
    pub id: InstantiationNodeId,
    pub key: InstantiationKey,
    pub mangled_name: String,
    pub callees: Vec<InstantiationNodeId>,
}

/// Why an instance could not be created.
#[derive(Debug, Clone, PartialEq, Eq, Structural)]
pub enum MonoError {
    RecursionLimitExceeded { symbol: SymbolId, limit: usize },
}

/// Instance key to node, hashed with `rustc_hash`.
pub type InstanceIndex = FxHashMap<InstantiationKey, InstantiationNodeId>;

/// Symbol to the number of its instances, hashed with `rustc_hash`.
pub type InstanceCounts = FxHashMap<SymbolId, usize>;

/// What an instance index holds, keyed by `key_view`, as node positions.
pub uninterp spec fn instance_index_contents(m: InstanceIndex) -> Map<(u32, Seq<u32>), u32>;

/// What an instance-count map holds, keyed by symbol index.
pub uninterp spec fn instance_counts_contents(m: InstanceCounts) -> Map<u32, usize>;

/// The empty index.
pub open spec fn no_instances() -> Map<(u32, Seq<u32>), u32> {
    Map::empty()
}

/// The empty count map.
pub open spec fn no_counts() -> Map<u32, usize> {
    Map::empty()
}

/// An empty instance index.
///
/// Trusted: `<FxHashMap as Default>::default` builds a map with no entry.
#[verifier::external_body]
fn instance_index_new() -> (r: InstanceIndex)
    ensures
        instance_index_contents(r) == no_instances(),
{
    FxHashMap::default()
}

/// The node recorded for `key`, if any.
///
/// Trusted: `HashMap::get` finds the entry whose key equals `key`; the
/// derived equality of keys compares the symbol and the type ids one by
/// one, as `key_view` does.
#[verifier::external_body]
fn instance_index_get(m: &InstanceIndex, key: &InstantiationKey) -> (r: Option<InstantiationNodeId>)
    ensures
        r == (if instance_index_contents(*m).contains_key(key_view(*key)) {
            Some(InstantiationNodeId(instance_index_contents(*m)[key_view(*key)]))
        } else {
            None
        }),
{
    m.get(key).copied()
}

/// Records `id` for `key`.
///
/// Trusted: `HashMap::insert` replaces the entry of an equal key or adds
/// one.
#[verifier::external_body]
fn instance_index_insert(m: &mut InstanceIndex, key: InstantiationKey, id: InstantiationNodeId)
    ensures
        instance_index_contents(*final(m)) == instance_index_contents(*old(m)).insert(
            key_view(key),
            id.0,
        ),
{
    m.insert(key, id);
}

/// An empty count map.
///
/// Trusted: `<FxHashMap as Default>::default` builds a map with no entry.
#[verifier::external_body]
fn instance_counts_new() -> (r: InstanceCounts)
    ensures
        instance_counts_contents(r) == no_counts(),
{
    FxHashMap::default()
}

/// The count recorded for `symbol`, if any.
///
/// Trusted: `HashMap::get` finds the entry whose key equals `symbol`.
#[verifier::external_body]
fn instance_counts_get(m: &InstanceCounts, symbol: SymbolId) -> (r: Option<usize>)
    ensures
        r == (if instance_counts_contents(*m).contains_key(symbol.0) {
            Some(instance_counts_contents(*m)[symbol.0])
        } else {
            None
        }),
{
    m.get(&symbol).copied()
}

/// Records `count` for `symbol`.
///
/// Trusted: `HashMap::insert` replaces the entry of an equal key or adds
/// one.
#[verifier::external_body]
fn instance_counts_insert(m: &mut InstanceCounts, symbol: SymbolId, count: usize)
    ensures
        instance_counts_contents(*final(m)) == instance_counts_contents(*old(m)).insert(
            symbol.0,
            count,
        ),
{
    m.insert(symbol, count);
}

/// The number of nodes of `nodes` that instantiate the symbol `s`.
pub open spec fn count_instances(nodes: Seq<InstantiationNode>, s: u32) -> nat
    decreases nodes.len(),
{
    if nodes.len() == 0 {
        0
    } else {
        count_instances(nodes.drop_last(), s) + if nodes.last().key.symbol.0 == s {
            1nat
        } else {
            0nat
        }
    }
}

/// The mangled type arguments, each preceded by `_`.
pub open spec fn mangle_args(args: Seq<TyView>, syms: Seq<Symbol>) -> Seq<char>
    decreases args.len(),
{
    if args.len() == 0 {
        Seq::empty()
    } else {
        mangle_args(args.drop_last(), syms) + "_"@ + mangle_ty(args.last(), syms)
    }
}

/// The linker name of an instance of the symbol named `name` at the
/// types `args`: `_A$<name>$I_<type1>_<type2>_$E`, so `swap<int, str>`
/// becomes `_A$swap$I_int_str_$E`.
pub open spec fn mangled_name(name: Seq<char>, args: Seq<TyView>, syms: Seq<Symbol>) -> Seq<char> {
    "_A$"@ + name + "$I"@ + mangle_args(args, syms) + "_$E"@
}

/// The types that the type arguments of `key` stand for in `interner`.
pub open spec fn key_types(key: InstantiationKey, interner: Seq<TyView>) -> Seq<TyView> {
    key.type_args@.map_values(|t: TypeId| interner[t.0 as int])
}

/// Whether `key` can be mangled: its symbol is defined, and its type
/// arguments are interned types that name defined symbols only.
pub open spec fn can_mangle(key: InstantiationKey, interner: Seq<TyView>, syms: Seq<Symbol>) -> bool {
    &&& key.symbol.0 < syms.len()
    &&& forall|i: int|
        0 <= i < key.type_args@.len() ==> {
            &&& (#[trigger] key.type_args@[i]).0 < interner.len()
            &&& ty_ids_below(interner[key.type_args@[i].0 as int], syms.len())
        }
}

/// The linker name of the instance `key`; see `mangled_name`.
pub fn mangle_symbol(key: &InstantiationKey, interner: &TypeInterner, symbols: &SymbolTable) -> (r:
    String)
    requires
        can_mangle(*key, interner@, symbols.symbol_seq()),
    ensures
        r@ == mangled_name(
            symbols.symbol_seq()[key.symbol.0 as int].name@,
            key_types(*key, interner@),
            symbols.symbol_seq(),
        ),
{
    let ghost syms = symbols.symbol_seq();
    let ghost args = key_types(*key, interner@);
    let mut out = String::from_str("_A$");
    out.append(symbols.get(key.symbol).name.as_str());
    out.append("$I");
    let ghost head = out@;
    let mut i: usize = 0;
    while i < key.type_args.len()
        invariant
            can_mangle(*key, interner@, syms),
            syms == symbols.symbol_seq(),
            args == key_types(*key, interner@),
            args.len() == key.type_args@.len(),
            i <= key.type_args@.len(),
            out@ == head + mangle_args(args.take(i as int), syms),
        decreases key.type_args@.len() - i,
    {
        let tid = key.type_args[i];
        assert(args.take(i + 1).drop_last() =~= args.take(i as int));
        out.append("_");
        interner.resolve(tid).write_mangled(symbols, &mut out);
        i += 1;
        assert(out@ =~= head + mangle_args(args.take(i as int), syms));
    }
    assert(args.take(i as int) =~= args);
    out.append("_$E");
    out
}

/// Whether there is an edge from node `u` to node `v`.
pub open spec fn has_edge(nodes: Seq<InstantiationNode>, u: int, v: int) -> bool {
    &&& 0 <= u < nodes.len()
    &&& exists|j: int| 0 <= j < nodes[u].callees@.len() && #[trigger] nodes[u].callees@[j].0 == v
}

/// Whether `w` is a closed walk: a nonempty sequence of nodes, each with
/// an edge to the next, the last with an edge back to the first.
pub open spec fn is_closed_walk(nodes: Seq<InstantiationNode>, w: Seq<int>) -> bool {
    &&& w.len() >= 1
    &&& forall|k: int| 0 <= k < w.len() - 1 ==> has_edge(nodes, #[trigger] w[k], w[k + 1])
    &&& has_edge(nodes, w.last(), w[0])
}

/// The node ids of `ids` as integers.
pub open spec fn id_ints(ids: Seq<InstantiationNodeId>) -> Seq<int> {
    ids.map_values(|id: InstantiationNodeId| id.0 as int)
}

/// Whether every callee of every node is a node of `nodes`.
pub open spec fn edges_within(nodes: Seq<InstantiationNode>) -> bool {
    forall|u: int, j: int|
        0 <= u < nodes.len() && 0 <= j < nodes[u].callees@.len() ==> (
        #[trigger] nodes[u].callees@[j]).0 < nodes.len()
}

/// Detects cycles among generic instantiations, and bounds how many
/// instances one symbol may have.
#[derive(Debug)]
pub struct InstantiationGraph {
    nodes: Vec<InstantiationNode>,
    index: InstanceIndex,
    instantiation_counts: InstanceCounts,
    recursion_limit: usize,
}

impl InstantiationGraph {
    /// The nodes, in the order they were created.
    pub closed spec fn node_seq(&self) -> Seq<InstantiationNode> {
        self.nodes@
    }

    /// The most instances one symbol may have.
    pub closed spec fn limit(&self) -> usize {
        self.recursion_limit
    }

    /// The node of the instance whose key view is `k`, if any.
    pub open spec fn node_of(&self, k: (u32, Seq<u32>)) -> Option<int> {
        if exists|i: int| 0 <= i < self.node_seq().len() && key_view(#[trigger] self.node_seq()[i].key) == k {
            Some(choose|i: int| 0 <= i < self.node_seq().len() && key_view(#[trigger] self.node_seq()[i].key) == k)
        } else {
            None
        }
    }

    /// The internal invariant: each node's id is its position, no key
    /// occurs twice, the index sends each key to its node, and the counts
    /// are the numbers of instances of each symbol.
    pub closed spec fn wf(&self) -> bool {
        let nodes = self.nodes@;
        let index = instance_index_contents(self.index);
        let counts = instance_counts_contents(self.instantiation_counts);
        &&& nodes.len() <= u32::MAX + 1
        &&& forall|i: int| 0 <= i < nodes.len() ==> (#[trigger] nodes[i]).id.0 == i
        &&& forall|i: int, j: int|
            0 <= i < j < nodes.len() ==> key_view(#[trigger] nodes[i].key) != key_view(
                #[trigger] nodes[j].key,
            )
        &&& forall|i: int|
            0 <= i < nodes.len() ==> index.contains_key(key_view(#[trigger] nodes[i].key)) && index[key_view(
                nodes[i].key,
            )] == i
        &&& forall|k: (u32, Seq<u32>)|
            #[trigger] index.contains_key(k) ==> index[k] < nodes.len() && key_view(
                nodes[index[k] as int].key,
            ) == k
        &&& forall|s: u32|
            #[trigger] count_instances(nodes, s) == if counts.contains_key(s) {
                counts[s] as nat
            } else {
                0nat
            }
        &&& forall|s: u32| #[trigger] count_instances(nodes, s) <= self.recursion_limit
    }

    /// No symbol ever has more instances than the limit allows.
    pub proof fn lemma_instances_within_limit(&self, s: u32)
        requires
            self.wf(),
        ensures
            count_instances(self.node_seq(), s) <= self.limit(),
    {
    }

    /// No two nodes are instances of the same key.
    pub proof fn lemma_keys_unique(&self, i: int, j: int)
        requires
            self.wf(),
            0 <= i < self.node_seq().len(),
            0 <= j < self.node_seq().len(),
            key_view(self.node_seq()[i].key) == key_view(self.node_seq()[j].key),
        ensures
            i == j,
    {
        if i < j {
            assert(key_view(self.nodes@[i].key) != key_view(self.nodes@[j].key));
        } else if j < i {
            assert(key_view(self.nodes@[j].key) != key_view(self.nodes@[i].key));
        }
    }

    /// A symbol that has reached the limit holds exactly `limit` instances:
    /// each new key of it adds one instance, and at the limit
    /// `get_or_insert` refuses every new key of it.
    pub proof fn lemma_limit_is_final(&self, s: u32)
        requires
            self.wf(),
            count_instances(self.node_seq(), s) >= self.limit(),
        ensures
            count_instances(self.node_seq(), s) == self.limit(),
    {
    }

    /// Whether every edge leads to a node of the graph.
    pub open spec fn edges_valid(&self) -> bool {
        edges_within(self.node_seq())
    }

    /// An empty graph with the default limit of 64 instances per symbol.
    pub fn new() -> (r: InstantiationGraph)
        ensures
            r.wf(),
            r.node_seq() == Seq::<InstantiationNode>::empty(),
            r.limit() == 64,
    {
        InstantiationGraph::with_recursion_limit(64)
    }

    /// An empty graph allowing `limit` instances per symbol.
    pub fn with_recursion_limit(limit: usize) -> (r: InstantiationGraph)
        ensures
            r.wf(),
            r.node_seq() == Seq::<InstantiationNode>::empty(),
            r.limit() == limit,
    {
        let r = InstantiationGraph {
            nodes: Vec::new(),
            index: instance_index_new(),
            instantiation_counts: instance_counts_new(),
            recursion_limit: limit,
        };
        assert(forall|s: u32| #[trigger] count_instances(r.nodes@, s) == 0);
        r
    }

    /// The node of the instance `key`, if it has been created.
    pub fn lookup(&self, key: &InstantiationKey) -> (r: Option<InstantiationNodeId>)
        requires
            self.wf(),
        ensures
            match r {
                Some(id) => {
                    &&& id.0 < self.node_seq().len()
                    &&& key_view(self.node_seq()[id.0 as int].key) == key_view(*key)
                    &&& forall|i: int|
                        0 <= i < self.node_seq().len() && key_view(#[trigger] self.node_seq()[i].key)
                            == key_view(*key) ==> i == id.0
                },
                None => forall|i: int|
                    0 <= i < self.node_seq().len() ==> key_view(#[trigger] self.node_seq()[i].key)
                        != key_view(*key),
            },
    {
        instance_index_get(&self.index, key)
    }

    /// The number of instances of `symbol` so far.
    fn count_of(&self, symbol: SymbolId) -> (r: usize)
        requires
            self.wf(),
        ensures
            r == count_instances(self.node_seq(), symbol.0),
    {
        match instance_counts_get(&self.instantiation_counts, symbol) {
            Some(n) => n,
            None => 0,
        }
    }

    /// The node of the instance `key`: the existing one, or a new one with
    /// no callees and its mangled name, unless `key`'s symbol already has
    /// as many instances as the limit allows.
    pub fn get_or_insert(
        &mut self,
        key: InstantiationKey,
        interner: &TypeInterner,
        symbols: &SymbolTable,
    ) -> (r: Result<InstantiationNodeId, MonoError>)
        requires
            old(self).wf(),
            (exists|i: int|
                0 <= i < old(self).node_seq().len() && key_view(#[trigger] old(self).node_seq()[i].key)
                    == key_view(key)) || count_instances(old(self).node_seq(), key.symbol.0)
                >= old(self).limit() || (can_mangle(key, interner@, symbols.symbol_seq()) && old(
                self,
            ).node_seq().len() <= u32::MAX),
        ensures
            final(self).wf(),
            final(self).limit() == old(self).limit(),
            match r {
                Ok(id) => if exists|i: int|
                    0 <= i < old(self).node_seq().len() && key_view(
                        #[trigger] old(self).node_seq()[i].key,
                    ) == key_view(key) {
                    &&& final(self).node_seq() == old(self).node_seq()
                    &&& id.0 < old(self).node_seq().len()
                    &&& key_view(old(self).node_seq()[id.0 as int].key) == key_view(key)
                    &&& forall|i: int|
                        0 <= i < old(self).node_seq().len() && key_view(
                            #[trigger] old(self).node_seq()[i].key,
                        ) == key_view(key) ==> i == id.0
                } else {
                    &&& count_instances(old(self).node_seq(), key.symbol.0) < old(self).limit()
                    &&& count_instances(final(self).node_seq(), key.symbol.0) == count_instances(
                        old(self).node_seq(),
                        key.symbol.0,
                    ) + 1
                    &&& forall|s: u32|
                        s != key.symbol.0 ==> #[trigger] count_instances(final(self).node_seq(), s)
                            == count_instances(old(self).node_seq(), s)
                    &&& id.0 == old(self).node_seq().len()
                    &&& final(self).node_seq().len() == old(self).node_seq().len() + 1
                    &&& final(self).node_seq().drop_last() == old(self).node_seq()
                    &&& final(self).node_seq().last().id == id
                    &&& final(self).node_seq().last().key.symbol == key.symbol
                    &&& final(self).node_seq().last().key.type_args@ == key.type_args@
                    &&& final(self).node_seq().last().mangled_name@ == mangled_name(
                        symbols.symbol_seq()[key.symbol.0 as int].name@,
                        key_types(key, interner@),
                        symbols.symbol_seq(),
                    )
                    &&& final(self).node_seq().last().callees@ == Seq::<InstantiationNodeId>::empty()
                },
                Err(e) => {
                    &&& forall|i: int|
                        0 <= i < old(self).node_seq().len() ==> key_view(
                            #[trigger] old(self).node_seq()[i].key,
                        ) != key_view(key)
                    &&& count_instances(old(self).node_seq(), key.symbol.0) >= old(self).limit()
                    &&& e == MonoError::RecursionLimitExceeded {
                        symbol: key.symbol,
                        limit: old(self).limit(),
                    }
                    &&& final(self).node_seq() == old(self).node_seq()
                },
            },
    {
        if let Some(id) = instance_index_get(&self.index, &key) {
            return Ok(id);
        }
        let same_symbol_count = self.count_of(key.symbol);
        if same_symbol_count >= self.recursion_limit {
            return Err(MonoError::RecursionLimitExceeded { symbol: key.symbol, limit: self.recursion_limit });
        }
        let mangled = mangle_symbol(&key, interner, symbols);
        let ghost old_nodes = self.nodes@;
        let id = InstantiationNodeId::from_usize(self.nodes.len());
        let symbol = key.symbol;
        self.nodes.push(
            InstantiationNode { id, key: key.clone(), mangled_name: mangled, callees: Vec::new() },
        );
        instance_index_insert(&mut self.index, key, id);
        instance_counts_insert(&mut self.instantiation_counts, symbol, same_symbol_count + 1);
        proof {
            let nodes = self.nodes@;
            assert(nodes.drop_last() =~= old_nodes);
            assert forall|s: u32| #[trigger]
                count_instances(nodes, s) == if instance_counts_contents(
                    self.instantiation_counts,
                ).contains_key(s) {
                    instance_counts_contents(self.instantiation_counts)[s] as nat
                } else {
                    0nat
                } by {
                assert(count_instances(nodes, s) == count_instances(old_nodes, s) + if nodes.last().key.symbol.0 == s {
                    1nat
                } else {
                    0nat
                });
            }
            assert forall|s: u32| #[trigger] count_instances(nodes, s) <= self.recursion_limit by {
                assert(count_instances(nodes, s) == count_instances(old_nodes, s) + if nodes.last().key.symbol.0 == s {
                    1nat
                } else {
                    0nat
                });
                assert(count_instances(old_nodes, s) <= self.recursion_limit);
            }
        }
        Ok(id)
    }

    /// Records that `caller` calls `callee`.
    pub fn add_edge(&mut self, caller: InstantiationNodeId, callee: InstantiationNodeId)
        requires
            old(self).wf(),
            caller.0 < old(self).node_seq().len(),
        ensures
            final(self).wf(),
            final(self).limit() == old(self).limit(),
            final(self).node_seq().len() == old(self).node_seq().len(),
            forall|i: int|
                0 <= i < old(self).node_seq().len() && i != caller.0 ==> #[trigger] final(self).node_seq()[i]
                    == old(self).node_seq()[i],
            final(self).node_seq()[caller.0 as int].id == old(self).node_seq()[caller.0 as int].id,
            final(self).node_seq()[caller.0 as int].key == old(self).node_seq()[caller.0 as int].key,
            final(self).node_seq()[caller.0 as int].mangled_name == old(
                self,
            ).node_seq()[caller.0 as int].mangled_name,
            final(self).node_seq()[caller.0 as int].callees@ == old(
                self,
            ).node_seq()[caller.0 as int].callees@.push(callee),
    {
        let ghost old_nodes = self.nodes@;
        let node = &mut self.nodes[caller.as_usize()];
        node.callees.push(callee);
        proof {
            assert forall|s: u32| #[trigger] count_instances(self.nodes@, s) == count_instances(old_nodes, s) by {
                lemma_count_keys_same(self.nodes@, old_nodes, s);
            }
        }
    }

    /// The node `id`.
    pub fn get_node(&self, id: InstantiationNodeId) -> (r: &InstantiationNode)
        requires
            id.0 < self.node_seq().len(),
        ensures
            *r == self.node_seq()[id.0 as int],
    {
        &self.nodes[id.as_usize()]
    }

    /// The number of nodes.
    pub fn len(&self) -> (r: usize)
        ensures
            r == self.node_seq().len(),
    {
        self.nodes.len()
    }

    /// Whether the graph has no node.
    pub fn is_empty(&self) -> (r: bool)
        ensures
            r == (self.node_seq().len() == 0),
    {
        self.nodes.len() == 0
    }

    /// The nodes, in the order they were created.
    pub fn iter(&self) -> (r: &[InstantiationNode])
        ensures
            r@ == self.node_seq(),
    {
        self.nodes.as_slice()
    }
}

/// The number of `true` entries of `s`.
pub open spec fn count_true(s: Seq<bool>) -> nat
    decreases s.len(),
{
    if s.len() == 0 {
        0
    } else {
        count_true(s.drop_last()) + if s.last() {
            1nat
        } else {
            0nat
        }
    }
}

proof fn lemma_count_true_grows(a: Seq<bool>, b: Seq<bool>, i: int)
    requires
        a.len() == b.len(),
        forall|k: int| 0 <= k < a.len() && #[trigger] a[k] ==> b[k],
        0 <= i < a.len(),
        !a[i],
        b[i],
    ensures
        count_true(a) < count_true(b),
    decreases a.len(),
{
    if i < a.len() - 1 {
        lemma_count_true_grows(a.drop_last(), b.drop_last(), i);
    } else {
        lemma_count_true_mono(a.drop_last(), b.drop_last());
    }
}

proof fn lemma_count_true_mono(a: Seq<bool>, b: Seq<bool>)
    requires
        a.len() == b.len(),
        forall|k: int| 0 <= k < a.len() && #[trigger] a[k] ==> b[k],
    ensures
        count_true(a) <= count_true(b),
    decreases a.len(),
{
    if a.len() > 0 {
        lemma_count_true_mono(a.drop_last(), b.drop_last());
    }
}

proof fn lemma_count_true_bound(a: Seq<bool>)
    ensures
        count_true(a) <= a.len(),
    decreases a.len(),
{
    if a.len() > 0 {
        lemma_count_true_bound(a.drop_last());
    }
}

/// The position of the first node `c` on `path`.
pub open spec fn first_pos(path: Seq<InstantiationNodeId>, c: u32) -> int
    decreases path.len(),
{
    if path.len() == 0 || path[0].0 == c {
        0
    } else {
        1 + first_pos(path.drop_first(), c)
    }
}

/// The depth-first search from the unvisited node `node`, given which
/// nodes are visited, which are on the current path, and that path: the
/// cycle it meets first, if any, and the visited nodes after it. The
/// callees are searched in order; an edge back to a node on the path closes
/// the cycle from that node to the end of the path.
pub open spec fn dfs_from(
    nodes: Seq<InstantiationNode>,
    node: int,
    visited: Seq<bool>,
    on_stack: Seq<bool>,
    path: Seq<InstantiationNodeId>,
    fuel: nat,
) -> (Option<Seq<InstantiationNodeId>>, Seq<bool>)
    decreases fuel, 1int, 0int,
{
    if fuel == 0 {
        (None, visited)
    } else {
        dfs_callees(
            nodes,
            node,
            0,
            visited.update(node, true),
            on_stack.update(node, true),
            path.push(InstantiationNodeId(node as u32)),
            fuel,
        )
    }
}

/// The search through the callees of `node` from the `j`-th on; see
/// `dfs_from`.
pub open spec fn dfs_callees(
    nodes: Seq<InstantiationNode>,
    node: int,
    j: int,
    visited: Seq<bool>,
    on_stack: Seq<bool>,
    path: Seq<InstantiationNodeId>,
    fuel: nat,
) -> (Option<Seq<InstantiationNodeId>>, Seq<bool>)
    decreases fuel, 0int, nodes[node].callees@.len() - j,
{
    if fuel == 0 || j < 0 || j >= nodes[node].callees@.len() {
        (None, visited)
    } else {
        let c = nodes[node].callees@[j];
        if !visited[c.0 as int] {
            let (found, after) = dfs_from(nodes, c.0 as int, visited, on_stack, path, (fuel - 1) as nat);
            if found is Some {
                (found, after)
            } else {
                dfs_callees(nodes, node, j + 1, after, on_stack, path, fuel)
            }
        } else if on_stack[c.0 as int] {
            (Some(path.subrange(first_pos(path, c.0), path.len() as int)), visited)
        } else {
            dfs_callees(nodes, node, j + 1, visited, on_stack, path, fuel)
        }
    }
}

/// The search from each unvisited node in order of ids, from `i` on.
pub open spec fn dfs_roots(nodes: Seq<InstantiationNode>, i: int, visited: Seq<bool>) -> Option<
    Seq<InstantiationNodeId>,
>
    decreases nodes.len() - i,
{
    if i < 0 || i >= nodes.len() {
        None
    } else if visited[i] {
        dfs_roots(nodes, i + 1, visited)
    } else {
        let (found, after) = dfs_from(
            nodes,
            i,
            visited,
            Seq::new(nodes.len(), |v: int| false),
            Seq::empty(),
            nodes.len(),
        );
        if found is Some {
            found
        } else {
            dfs_roots(nodes, i + 1, after)
        }
    }
}

/// The cycle the depth-first search meets first, searching the nodes in
/// order of their ids and each node's callees in order.
pub open spec fn first_cycle(nodes: Seq<InstantiationNode>) -> Option<Seq<InstantiationNodeId>> {
    dfs_roots(nodes, 0, Seq::new(nodes.len(), |v: int| false))
}

proof fn lemma_first_pos(path: Seq<InstantiationNodeId>, c: u32, s: int)
    requires
        0 <= s < path.len(),
        path[s].0 == c,
        forall|k: int| 0 <= k < s ==> (#[trigger] path[k]).0 != c,
    ensures
        first_pos(path, c) == s,
    decreases s,
{
    if s > 0 {
        let rest = path.drop_first();
        assert forall|k: int| 0 <= k < s - 1 implies (#[trigger] rest[k]).0 != c by {
            assert(rest[k] == path[k + 1]);
        }
        lemma_first_pos(rest, c, s - 1);
    }
}

/// Whether node `v` is finished: visited and no longer on the path.
spec fn is_black(visited: Seq<bool>, on_stack: Seq<bool>, v: int) -> bool {
    visited[v] && !on_stack[v]
}

/// The search's bookkeeping agrees with its path: the path holds distinct
/// nodes, each with an edge to the next, and exactly its nodes are marked
/// as on the stack, all of them visited.
spec fn path_ok(
    nodes: Seq<InstantiationNode>,
    visited: Seq<bool>,
    on_stack: Seq<bool>,
    path: Seq<InstantiationNodeId>,
) -> bool {
    &&& visited.len() == nodes.len()
    &&& on_stack.len() == nodes.len()
    &&& forall|k: int| 0 <= k < path.len() ==> ((#[trigger] path[k]).0 as int) < nodes.len()
    &&& forall|v: int|
        0 <= v < nodes.len() ==> (#[trigger] on_stack[v] <==> exists|k: int|
            0 <= k < path.len() && (#[trigger] path[k]).0 == v)
    &&& forall|v: int| 0 <= v < nodes.len() && #[trigger] on_stack[v] ==> visited[v]
    &&& forall|i: int, j: int| 0 <= i < j < path.len() ==> (#[trigger] path[i]).0 != (#[trigger] path[j]).0
    &&& forall|k: int|
        0 <= k < path.len() - 1 ==> has_edge(nodes, (#[trigger] path[k]).0 as int, path[k + 1].0 as int)
}

/// Every edge out of a finished node leads to a finished node.
spec fn black_closed(nodes: Seq<InstantiationNode>, visited: Seq<bool>, on_stack: Seq<bool>) -> bool {
    forall|u: int, j: int|
        0 <= u < nodes.len() && is_black(visited, on_stack, u) && 0 <= j < nodes[u].callees@.len()
            ==> is_black(visited, on_stack, (#[trigger] nodes[u].callees@[j]).0 as int)
}

/// No closed walk runs through finished nodes only.
spec fn black_acyclic(nodes: Seq<InstantiationNode>, visited: Seq<bool>, on_stack: Seq<bool>) -> bool {
    forall|w: Seq<int>|
        (forall|k: int| 0 <= k < w.len() ==> 0 <= #[trigger] w[k] < nodes.len() && is_black(visited, on_stack, w[k]))
            ==> !#[trigger] is_closed_walk(nodes, w)
}

/// Finishing `u`, whose edges all lead to finished nodes, keeps the
/// finished nodes closed and free of closed walks.
proof fn lemma_finish(
    nodes: Seq<InstantiationNode>,
    visited: Seq<bool>,
    on_stack: Seq<bool>,
    u: int,
)
    requires
        edges_within(nodes),
        visited.len() == nodes.len(),
        on_stack.len() == nodes.len(),
        0 <= u < nodes.len(),
        visited[u],
        on_stack[u],
        black_closed(nodes, visited, on_stack),
        black_acyclic(nodes, visited, on_stack),
        forall|j: int|
            0 <= j < nodes[u].callees@.len() ==> is_black(visited, on_stack, (#[trigger] nodes[u].callees@[j]).0 as int),
    ensures
        black_closed(nodes, visited, on_stack.update(u, false)),
        black_acyclic(nodes, visited, on_stack.update(u, false)),
{
    let os = on_stack.update(u, false);
    assert forall|v: int| 0 <= v < nodes.len() && v != u implies is_black(visited, os, v) == is_black(
        visited,
        on_stack,
        v,
    ) by {}
    assert forall|x: int, j: int|
        0 <= x < nodes.len() && is_black(visited, os, x) && 0 <= j < nodes[x].callees@.len()
            implies is_black(visited, os, (#[trigger] nodes[x].callees@[j]).0 as int) by {
        let c = nodes[x].callees@[j].0 as int;
        if x == u {
            assert(is_black(visited, on_stack, c));
        } else {
            assert(is_black(visited, on_stack, x));
            assert(is_black(visited, on_stack, c));
        }
        assert(c != u);
    }
    assert forall|w: Seq<int>|
        (forall|k: int| 0 <= k < w.len() ==> 0 <= #[trigger] w[k] < nodes.len() && is_black(visited, os, w[k]))
            implies !#[trigger] is_closed_walk(nodes, w) by {
        if is_closed_walk(nodes, w) {
            if exists|k: int| 0 <= k < w.len() && w[k] == u {
                let k = choose|k: int| 0 <= k < w.len() && w[k] == u;
                let p = if k == 0 {
                    w.len() - 1
                } else {
                    k - 1
                };
                assert(has_edge(nodes, w[p], u)) by {
                    if k != 0 {
                        assert(has_edge(nodes, w[k - 1], w[k]));
                    }
                }
                let j = choose|j: int| 0 <= j < nodes[w[p]].callees@.len() && #[trigger] nodes[w[p]].callees@[j].0 == u;
                if w[p] == u {
                    assert(is_black(visited, on_stack, nodes[u].callees@[j].0 as int));
                } else {
                    assert(is_black(visited, on_stack, w[p]));
                    assert(is_black(visited, on_stack, nodes[w[p]].callees@[j].0 as int));
                }
            } else {
                assert forall|k: int| 0 <= k < w.len() implies 0 <= #[trigger] w[k] < nodes.len()
                    && is_black(visited, on_stack, w[k]) by {
                    assert(w[k] != u);
                }
            }
        }
    }
}

/// Entering the unvisited node `node` from the end of the path keeps the
/// bookkeeping consistent and leaves the finished nodes as they were.
proof fn lemma_enter(
    nodes: Seq<InstantiationNode>,
    visited: Seq<bool>,
    on_stack: Seq<bool>,
    path: Seq<InstantiationNodeId>,
    node: InstantiationNodeId,
)
    requires
        edges_within(nodes),
        (node.0 as int) < nodes.len(),
        !visited[node.0 as int],
        path_ok(nodes, visited, on_stack, path),
        black_closed(nodes, visited, on_stack),
        black_acyclic(nodes, visited, on_stack),
        path.len() == 0 || has_edge(nodes, path.last().0 as int, node.0 as int),
    ensures
        path_ok(
            nodes,
            visited.update(node.0 as int, true),
            on_stack.update(node.0 as int, true),
            path.push(node),
        ),
        black_closed(nodes, visited.update(node.0 as int, true), on_stack.update(node.0 as int, true)),
        black_acyclic(nodes, visited.update(node.0 as int, true), on_stack.update(node.0 as int, true)),
{
    let idx = node.0 as int;
    let vis = visited.update(idx, true);
    let os = on_stack.update(idx, true);
    let p = path.push(node);
    assert forall|v: int| 0 <= v < nodes.len() && v != idx implies is_black(vis, os, v) == is_black(
        visited,
        on_stack,
        v,
    ) by {}
    assert(!is_black(vis, os, idx));
    assert(!on_stack[idx]);
    assert forall|u: int, j: int|
        0 <= u < nodes.len() && is_black(vis, os, u) && 0 <= j < nodes[u].callees@.len() implies is_black(
            vis,
            os,
            (#[trigger] nodes[u].callees@[j]).0 as int,
        ) by {
        assert(is_black(visited, on_stack, u));
        let c = nodes[u].callees@[j].0 as int;
        assert(is_black(visited, on_stack, c));
        assert(c != idx);
    }
    assert forall|w: Seq<int>|
        (forall|k: int| 0 <= k < w.len() ==> 0 <= #[trigger] w[k] < nodes.len() && is_black(vis, os, w[k]))
            implies !#[trigger] is_closed_walk(nodes, w) by {
        assert forall|k: int| 0 <= k < w.len() implies 0 <= #[trigger] w[k] < nodes.len() && is_black(
            visited,
            on_stack,
            w[k],
        ) by {
            assert(w[k] != idx);
        }
    }
    assert forall|v: int|
        0 <= v < nodes.len() implies (#[trigger] os[v] <==> exists|k: int|
            0 <= k < p.len() && (#[trigger] p[k]).0 == v) by {
        if v == idx {
            assert(p[p.len() - 1].0 == v);
        } else if on_stack[v] {
            let k = choose|k: int| 0 <= k < path.len() && (#[trigger] path[k]).0 == v;
            assert(p[k].0 == v);
        } else {
            if exists|k: int| 0 <= k < p.len() && (#[trigger] p[k]).0 == v {
                let k = choose|k: int| 0 <= k < p.len() && (#[trigger] p[k]).0 == v;
                assert(path[k].0 == v);
            }
        }
    }
    assert forall|a: int, b: int| 0 <= a < b < p.len() implies (#[trigger] p[a]).0 != (#[trigger] p[b]).0 by {
        if b == p.len() - 1 {
            assert(path[a] == p[a]);
            assert(on_stack[path[a].0 as int]);
        } else {
            assert(path[a] == p[a] && path[b] == p[b]);
        }
    }
    assert forall|k: int| 0 <= k < p.len() - 1 implies has_edge(
        nodes,
        (#[trigger] p[k]).0 as int,
        p[k + 1].0 as int,
    ) by {
        if k == p.len() - 2 {
            assert(path.last() == p[k]);
        } else {
            assert(path[k] == p[k] && path[k + 1] == p[k + 1]);
            assert(has_edge(nodes, path[k].0 as int, path[k + 1].0 as int));
        }
    }
    assert forall|v: int| 0 <= v < nodes.len() && #[trigger] os[v] implies vis[v] by {}
    assert forall|k: int| 0 <= k < p.len() implies ((#[trigger] p[k]).0 as int) < nodes.len() by {
        if k < path.len() {
            assert(path[k] == p[k]);
        }
    }
}

/// The tail of the path from the node `ci`, reached again from the path's
/// last node, is a cycle of distinct nodes.
#[verifier::spinoff_prover]
#[verifier::rlimit(40)]
proof fn lemma_path_cycle(
    nodes: Seq<InstantiationNode>,
    visited: Seq<bool>,
    on_stack: Seq<bool>,
    path: Seq<InstantiationNodeId>,
    start: int,
)
    requires
        path_ok(nodes, visited, on_stack, path),
        0 <= start < path.len(),
        has_edge(nodes, path.last().0 as int, path[start].0 as int),
    ensures
        is_closed_walk(nodes, id_ints(path.subrange(start, path.len() as int))),
        forall|a: int, b: int|
            0 <= a < b < path.len() - start ==> path.subrange(start, path.len() as int)[a]
                != path.subrange(start, path.len() as int)[b],
{
    let c = path.subrange(start, path.len() as int);
    let w = id_ints(c);
    assert forall|k: int| 0 <= k < w.len() - 1 implies has_edge(nodes, #[trigger] w[k], w[k + 1]) by {
        assert(c[k] == path[start + k] && c[k + 1] == path[start + k + 1]);
        assert(has_edge(nodes, path[start + k].0 as int, path[start + k + 1].0 as int));
    }
    assert(w.last() == path.last().0 as int);
    assert(w[0] == path[start].0 as int);
    assert forall|a: int, b: int| 0 <= a < b < c.len() implies c[a] != c[b] by {
        assert(c[a] == path[start + a] && c[b] == path[start + b]);
        assert(path[start + a].0 != path[start + b].0);
    }
}

/// Leaving `node`, all of whose callees are finished, restores the path
/// and stack marks from before it was entered, and finishes it.
proof fn lemma_leave(
    nodes: Seq<InstantiationNode>,
    visited: Seq<bool>,
    on_stack: Seq<bool>,
    path: Seq<InstantiationNodeId>,
    node: InstantiationNodeId,
)
    requires
        edges_within(nodes),
        (node.0 as int) < nodes.len(),
        on_stack.len() == nodes.len(),
        visited[node.0 as int],
        path_ok(nodes, visited, on_stack.update(node.0 as int, true), path.push(node)),
        !on_stack[node.0 as int],
        black_closed(nodes, visited, on_stack.update(node.0 as int, true)),
        black_acyclic(nodes, visited, on_stack.update(node.0 as int, true)),
        forall|j: int|
            0 <= j < nodes[node.0 as int].callees@.len() ==> is_black(
                visited,
                on_stack.update(node.0 as int, true),
                (#[trigger] nodes[node.0 as int].callees@[j]).0 as int,
            ),
    ensures
        path_ok(nodes, visited, on_stack, path),
        black_closed(nodes, visited, on_stack),
        black_acyclic(nodes, visited, on_stack),
{
    let idx = node.0 as int;
    let os = on_stack.update(idx, true);
    let p = path.push(node);
    lemma_finish(nodes, visited, os, idx);
    assert(os.update(idx, false) =~= on_stack);
    assert forall|v: int|
        0 <= v < nodes.len() implies (#[trigger] on_stack[v] <==> exists|k: int|
            0 <= k < path.len() && (#[trigger] path[k]).0 == v) by {
        if on_stack[v] {
            assert(v != idx);
            assert(os[v]);
            let k = choose|k: int| 0 <= k < p.len() && (#[trigger] p[k]).0 == v;
            assert(k != p.len() - 1);
            assert(path[k] == p[k]);
        } else {
            if exists|k: int| 0 <= k < path.len() && (#[trigger] path[k]).0 == v {
                let k = choose|k: int| 0 <= k < path.len() && (#[trigger] path[k]).0 == v;
                assert(p[k] == path[k]);
                if v == idx {
                    assert(p[p.len() - 1].0 == v);
                } else {
                    assert(os[v]);
                }
            }
        }
    }
    assert forall|a: int, b: int| 0 <= a < b < path.len() implies (#[trigger] path[a]).0 != (#[trigger] path[b]).0 by {
        assert(p[a] == path[a] && p[b] == path[b]);
    }
    assert forall|k: int| 0 <= k < path.len() - 1 implies has_edge(
        nodes,
        (#[trigger] path[k]).0 as int,
        path[k + 1].0 as int,
    ) by {
        assert(p[k] == path[k] && p[k + 1] == path[k + 1]);
        assert(has_edge(nodes, p[k].0 as int, p[k + 1].0 as int));
    }
    assert forall|k: int| 0 <= k < path.len() implies ((#[trigger] path[k]).0 as int) < nodes.len() by {
        assert(p[k] == path[k]);
    }
    assert forall|v: int| 0 <= v < nodes.len() && #[trigger] on_stack[v] implies visited[v] by {
        assert(os[v]);
    }
}

impl InstantiationGraph {
    /// A cycle among the instances, if there is one: a list of distinct
    /// nodes, each calling the next and the last calling the first. The
    /// nodes are searched depth first, in order of their ids and of their
    /// callees, and the first cycle met is returned.
    pub fn find_cycle(&self) -> (r: Option<Vec<InstantiationNodeId>>)
        requires
            self.wf(),
            self.edges_valid(),
        ensures
            match r {
                Some(c) => {
                    &&& is_closed_walk(self.node_seq(), id_ints(c@))
                    &&& forall|i: int, j: int| 0 <= i < j < c@.len() ==> c@[i] != c@[j]
                },
                None => forall|w: Seq<int>| !#[trigger] is_closed_walk(self.node_seq(), w),
            },
            match r {
                Some(c) => first_cycle(self.node_seq()) == Some(c@),
                None => first_cycle(self.node_seq()) is None,
            },
    {
        let n = self.nodes.len();
        let mut visited: Vec<bool> = Vec::new();
        let mut on_stack: Vec<bool> = Vec::new();
        let mut k: usize = 0;
        while k < n
            invariant
                n == self.nodes@.len(),
                k <= n,
                visited@.len() == k,
                on_stack@.len() == k,
                forall|v: int| 0 <= v < k ==> !visited@[v] && !on_stack@[v],
            decreases n - k,
        {
            visited.push(false);
            on_stack.push(false);
            k += 1;
        }
        let mut path: Vec<InstantiationNodeId> = Vec::new();
        proof {
            assert(path_ok(self.nodes@, visited@, on_stack@, path@));
            assert(visited@ =~= Seq::new(n as nat, |v: int| false));
        }
        let mut i: usize = 0;
        while i < n
            invariant
                n == self.nodes@.len(),
                n <= u32::MAX + 1,
                edges_within(self.nodes@),
                i <= n,
                path@.len() == 0,
                path_ok(self.nodes@, visited@, on_stack@, path@),
                black_closed(self.nodes@, visited@, on_stack@),
                black_acyclic(self.nodes@, visited@, on_stack@),
                forall|v: int| 0 <= v < i ==> #[trigger] visited@[v],
                first_cycle(self.nodes@) == dfs_roots(self.nodes@, i as int, visited@),
            decreases n - i,
        {
            if !visited[i] {
                let ghost before = visited@;
                proof {
                    lemma_count_true_bound(visited@);
                    assert(on_stack@ =~= Seq::new(n as nat, |v: int| false));
                    assert(path@ =~= Seq::<InstantiationNodeId>::empty());
                }
                let found = self.dfs_cycle(
                    InstantiationNodeId::from_usize(i),
                    &mut visited,
                    &mut on_stack,
                    &mut path,
                    Ghost(n as nat),
                );
                if found.is_some() {
                    return found;
                }
                assert forall|v: int| 0 <= v < i + 1 implies #[trigger] visited@[v] by {
                    if v < i {
                        assert(before[v]);
                    }
                }
            }
            i += 1;
        }
        proof {
            assert forall|w: Seq<int>| !#[trigger] is_closed_walk(self.nodes@, w) by {
                if is_closed_walk(self.nodes@, w) {
                    assert forall|k: int| 0 <= k < w.len() implies 0 <= #[trigger] w[k] < n
                        && is_black(visited@, on_stack@, w[k]) by {
                        if k < w.len() - 1 {
                            assert(has_edge(self.nodes@, w[k], w[k + 1]));
                        } else {
                            assert(has_edge(self.nodes@, w.last(), w[0]));
                        }
                        assert(visited@[w[k]]);
                        if on_stack@[w[k]] {
                            let kk = choose|kk: int| 0 <= kk < path@.len() && (#[trigger] path@[kk]).0 == w[k];
                        }
                    }
                }
            }
        }
        None
    }

    /// Depth-first search from the unvisited node `node`, extending `path`.
    fn dfs_cycle(
        &self,
        node: InstantiationNodeId,
        visited: &mut Vec<bool>,
        on_stack: &mut Vec<bool>,
        path: &mut Vec<InstantiationNodeId>,
        Ghost(fuel): Ghost<nat>,
    ) -> (r: Option<Vec<InstantiationNodeId>>)
        requires
            fuel >= old(visited)@.len() - count_true(old(visited)@),
            edges_within(self.node_seq()),
            node.0 < self.node_seq().len(),
            !old(visited)@[node.0 as int],
            path_ok(self.node_seq(), old(visited)@, old(on_stack)@, old(path)@),
            black_closed(self.node_seq(), old(visited)@, old(on_stack)@),
            black_acyclic(self.node_seq(), old(visited)@, old(on_stack)@),
            old(path)@.len() == 0 || has_edge(self.node_seq(), old(path)@.last().0 as int, node.0 as int),
        ensures
            match r {
                Some(c) => {
                    &&& is_closed_walk(self.node_seq(), id_ints(c@))
                    &&& forall|i: int, j: int| 0 <= i < j < c@.len() ==> c@[i] != c@[j]
                    &&& dfs_from(self.node_seq(), node.0 as int, old(visited)@, old(on_stack)@, old(path)@, fuel).0 == Some(c@)
                },
                None => {
                    &&& dfs_from(self.node_seq(), node.0 as int, old(visited)@, old(on_stack)@, old(path)@, fuel).0 is None
                    &&& final(visited)@ == dfs_from(self.node_seq(), node.0 as int, old(visited)@, old(on_stack)@, old(path)@, fuel).1
                    &&& final(path)@ == old(path)@
                    &&& final(on_stack)@ == old(on_stack)@
                    &&& final(visited)@.len() == old(visited)@.len()
                    &&& forall|v: int| 0 <= v < old(visited)@.len() && #[trigger] old(visited)@[v] ==> final(visited)@[v]
                    &&& final(visited)@[node.0 as int]
                    &&& path_ok(self.node_seq(), final(visited)@, final(on_stack)@, final(path)@)
                    &&& black_closed(self.node_seq(), final(visited)@, final(on_stack)@)
                    &&& black_acyclic(self.node_seq(), final(visited)@, final(on_stack)@)
                },
            },
        decreases old(visited)@.len() - count_true(old(visited)@),
    {
        let ghost nodes = self.nodes@;
        let ghost vis0 = visited@;
        let ghost os0 = on_stack@;
        let ghost path0 = path@;
        let idx = node.as_usize();
        proof {
            lemma_enter(nodes, vis0, os0, path0, node);
        }
        visited.set(idx, true);
        on_stack.set(idx, true);
        path.push(node);
        proof {
            lemma_count_true_grows(vis0, visited@, idx as int);
            lemma_count_true_bound(visited@);
        }
        let ghost os1 = on_stack@;
        let ghost path1 = path@;
        let callees = &self.nodes[idx].callees;
        let mut j: usize = 0;
        while j < callees.len()
            invariant
                nodes == self.nodes@,
                edges_within(nodes),
                idx == node.0,
                idx < nodes.len(),
                callees@ == nodes[idx as int].callees@,
                j <= callees@.len(),
                path@ == path1,
                on_stack@ == os1,
                path1 == path0.push(node),
                os1 == os0.update(idx as int, true),
                !os0[idx as int],
                visited@.len() == nodes.len(),
                vis0.len() == nodes.len(),
                vis0 == old(visited)@,
                os0 == old(on_stack)@,
                path0 == old(path)@,
                visited@[idx as int],
                forall|v: int| 0 <= v < nodes.len() && #[trigger] vis0[v] ==> visited@[v],
                count_true(vis0) < count_true(visited@),
                count_true(visited@) <= visited@.len(),
                path_ok(nodes, visited@, on_stack@, path@),
                black_closed(nodes, visited@, on_stack@),
                black_acyclic(nodes, visited@, on_stack@),
                forall|jj: int| 0 <= jj < j ==> is_black(visited@, on_stack@, (#[trigger] callees@[jj]).0 as int),
                fuel >= vis0.len() - count_true(vis0),
                dfs_from(nodes, idx as int, vis0, os0, path0, fuel) == dfs_callees(nodes, idx as int, j as int, visited@, os1, path1, fuel),
            decreases callees@.len() - j,
        {
            let callee = callees[j];
            let ci = callee.as_usize();
            assert(nodes[idx as int].callees@[j as int] == callee);
            assert(ci < nodes.len());
            assert(has_edge(nodes, idx as int, ci as int));
            if !visited[ci] {
                let ghost vis_before = visited@;
                assert(path@.last() == node);
                let found = self.dfs_cycle(callee, visited, on_stack, path, Ghost((fuel - 1) as nat));
                if found.is_some() {
                    proof {
                        assert(fuel > 0);
                        let child = dfs_from(nodes, ci as int, vis_before, os1, path1, (fuel - 1) as nat);
                        assert(child.0 is Some);
                        assert(dfs_callees(nodes, idx as int, j as int, vis_before, os1, path1, fuel) == child);
                    }
                    return found;
                }
                proof {
                    assert forall|v: int| 0 <= v < nodes.len() && #[trigger] vis0[v] implies visited@[v] by {
                        assert(vis_before[v]);
                    }
                    lemma_count_true_mono(vis_before, visited@);
                    lemma_count_true_bound(visited@);
                    assert forall|jj: int| 0 <= jj < j implies is_black(visited@, on_stack@, (#[trigger] callees@[jj]).0 as int) by {
                        let c = callees@[jj].0 as int;
                        assert(nodes[idx as int].callees@[jj] == callees@[jj]);
                        assert(vis_before[c]);
                    }
                    assert(!on_stack@[ci as int]);
                }
            } else if on_stack[ci] {
                let ghost p = path@;
                proof {
                    assert(on_stack@[ci as int]);
                    let k0 = choose|k: int| 0 <= k < p.len() && (#[trigger] p[k]).0 == ci;
                    assert(exists|k: int| 0 <= k < p.len() && (#[trigger] p[k]).0 == ci);
                }
                let mut start: usize = 0;
                while start < path.len() && path[start].0 != callee.0
                    invariant
                        p == path@,
                        callee.0 == ci,
                        start <= p.len(),
                        forall|k: int| 0 <= k < start ==> (#[trigger] p[k]).0 != ci,
                        exists|k: int| start <= k < p.len() && (#[trigger] p[k]).0 == ci,
                    decreases p.len() - start,
                {
                    proof {
                        let k = choose|k: int| start <= k < p.len() && (#[trigger] p[k]).0 == ci;
                        assert(k != start);
                    }
                    start += 1;
                }
                let mut cycle: Vec<InstantiationNodeId> = Vec::new();
                let mut t: usize = start;
                while t < path.len()
                    invariant
                        p == path@,
                        start < p.len(),
                        start <= t <= p.len(),
                        cycle@ == p.subrange(start as int, t as int),
                    decreases p.len() - t,
                {
                    cycle.push(path[t]);
                    t += 1;
                    assert(cycle@ =~= p.subrange(start as int, t as int));
                }
                proof {
                    assert(p.last() == node);
                    lemma_path_cycle(nodes, visited@, on_stack@, p, start as int);
                    lemma_first_pos(p, callee.0, start as int);
                    assert(cycle@ =~= p.subrange(start as int, p.len() as int));
                    assert(fuel > 0);
                    assert(visited@[ci as int] && on_stack@[ci as int]);
                    assert(dfs_callees(nodes, idx as int, j as int, visited@, os1, path1, fuel).0 == Some(cycle@));
                }
                return Some(cycle);
            }
            j += 1;
        }
        path.pop();
        on_stack.set(idx, false);
        proof {
            assert(path@ =~= path0);
            assert(on_stack@ =~= os0);
            assert forall|jj: int| 0 <= jj < nodes[idx as int].callees@.len() implies is_black(
                visited@,
                os1,
                (#[trigger] nodes[idx as int].callees@[jj]).0 as int,
            ) by {
                assert(callees@[jj] == nodes[idx as int].callees@[jj]);
            }
            lemma_leave(nodes, visited@, os0, path0, node);
        }
        None
    }
}

impl Default for InstantiationGraph {
    fn default() -> (r: Self)
        ensures
            r.wf(),
            r.node_seq() == Seq::<InstantiationNode>::empty(),
            r.limit() == 64,
    {
        InstantiationGraph::new()
    }
}

proof fn lemma_count_keys_same(a: Seq<InstantiationNode>, b: Seq<InstantiationNode>, s: u32)
    requires
        a.len() == b.len(),
        forall|i: int| 0 <= i < a.len() ==> (#[trigger] a[i]).key.symbol == b[i].key.symbol,
    ensures
        count_instances(a, s) == count_instances(b, s),
    decreases a.len(),
{
    if a.len() > 0 {
        lemma_count_keys_same(a.drop_last(), b.drop_last(), s);
    }
}

} // verus!

verus! {

/// Words joined by `", "`.
pub open spec fn comma_list(words: Seq<Seq<char>>) -> Seq<char>
    decreases words.len(),
{
    if words.len() == 0 {
        Seq::empty()
    } else if words.len() == 1 {
        words[0]
    } else {
        comma_list(words.drop_last()) + seq![',', ' '] + words.last()
    }
}

/// The mangled forms of `args`, in order.
pub open spec fn mangled_words(args: Seq<TyView>, syms: Seq<Symbol>) -> Seq<Seq<char>> {
    args.map_values(|t: TyView| mangle_ty(t, syms))
}

/// Whether a word can be told apart inside a mangled name: it is not
/// empty and holds no underscore.
pub open spec fn plain_word(w: Seq<char>) -> bool {
    w.len() > 0 && forall|i: int| 0 <= i < w.len() ==> w[i] != '_'
}

/// The mangled arguments without their leading underscore: the words
/// separated by underscores.
spec fn joined_args(args: Seq<TyView>, syms: Seq<Symbol>) -> Seq<char>
    decreases args.len(),
{
    if args.len() <= 1 {
        if args.len() == 1 {
            mangle_ty(args[0], syms)
        } else {
            Seq::empty()
        }
    } else {
        joined_args(args.drop_last(), syms) + seq!['_'] + mangle_ty(args.last(), syms)
    }
}

proof fn lemma_collapse_word(s: Seq<char>, w: Seq<char>)
    requires
        forall|i: int| 0 <= i < w.len() ==> w[i] != '_',
    ensures
        collapse_separators(s + w) == collapse_separators(s) + w,
    decreases w.len(),
{
    if w.len() > 0 {
        lemma_collapse_word(s, w.drop_last());
        assert((s + w).drop_last() =~= s + w.drop_last());
        assert((s + w).last() == w.last());
        assert(collapse_separators(s + w.drop_last()).push(w.last()) =~= collapse_separators(s) + w);
    }
}

proof fn lemma_collapse_separator(s: Seq<char>)
    requires
        s.len() > 0,
        s.last() != '_',
    ensures
        collapse_separators(s + seq!['_']) == collapse_separators(s) + seq![',', ' '],
{
    let u = s + seq!['_'];
    assert(u.drop_last() =~= s);
    assert(u.last() == '_' && u[u.len() - 2] == s.last());
    assert(collapse_separators(u) == collapse_separators(s) + seq![',', ' ']);
}

proof fn lemma_joined_args(args: Seq<TyView>, syms: Seq<Symbol>)
    requires
        args.len() >= 1,
        forall|i: int| 0 <= i < args.len() ==> plain_word(#[trigger] mangle_ty(args[i], syms)),
    ensures
        joined_args(args, syms).len() > 0,
        joined_args(args, syms)[0] != '_',
        joined_args(args, syms).last() != '_',
        mangle_args(args, syms) == seq!['_'] + joined_args(args, syms),
        collapse_separators(joined_args(args, syms)) == comma_list(mangled_words(args, syms)),
    decreases args.len(),
{
    reveal_strlit("_");
    let n = args.len() - 1;
    let m = mangle_ty(args[n], syms);
    assert(plain_word(mangle_ty(args[n], syms)));
    assert(m.len() > 0 && m.last() == m[m.len() - 1] && m[m.len() - 1] != '_' && m[0] != '_');
    if args.len() == 1 {
        assert(joined_args(args, syms) == m);
        assert(args.drop_last() =~= Seq::<TyView>::empty());
        assert(mangle_args(args, syms) == mangle_args(args.drop_last(), syms) + "_"@ + m);
        assert(mangle_args(args, syms) =~= "_"@ + m);
        assert(mangled_words(args, syms) =~= seq![m]);
        assert(comma_list(mangled_words(args, syms)) == m);
        lemma_collapse_word(Seq::empty(), m);
        assert(Seq::<char>::empty() + m =~= m);
        assert(collapse_separators(Seq::<char>::empty()) =~= Seq::<char>::empty());
    } else {
        let init = args.drop_last();
        assert forall|i: int| 0 <= i < init.len() implies plain_word(#[trigger] mangle_ty(init[i], syms)) by {
            assert(init[i] == args[i]);
        }
        lemma_joined_args(init, syms);
        let j = joined_args(init, syms);
        assert(args.last() == args[n]);
        assert(joined_args(args, syms) == j + seq!['_'] + m);
        lemma_collapse_separator(j);
        lemma_collapse_word(j + seq!['_'], m);
        let w = mangled_words(args, syms);
        assert(w.drop_last() =~= mangled_words(init, syms));
        assert(w.last() == m);
        assert(comma_list(w) == comma_list(w.drop_last()) + seq![',', ' '] + w.last());
        assert((j + seq!['_'] + m)[0] == j[0]);
        assert((j + seq!['_'] + m).last() == m.last());
        assert(mangle_args(args, syms) == mangle_args(init, syms) + "_"@ + m);
        assert(mangle_args(args, syms) =~= seq!['_'] + (j + seq!['_'] + m));
    }
}

proof fn lemma_trim_frame(words: Seq<char>)
    requires
        words.len() > 0,
        words[0] != '_',
        words.last() != '_',
    ensures
        trim_underscores(seq!['_'] + words + seq!['_']) == words,
{
    let s = seq!['_'] + words + seq!['_'];
    let t = words + seq!['_'];
    assert(s.drop_first() =~= t);
    assert(s[0] == '_');
    assert(trim_start_underscores(s) == trim_start_underscores(t));
    assert(t[0] == words[0]);
    assert(trim_start_underscores(t) == t);
    assert(t.drop_last() =~= words);
    assert(t.last() == '_');
    assert(trim_end_underscores(t) == trim_end_underscores(words));
    assert(trim_end_underscores(words) == words);
}

/// Demangling undoes mangling: for a symbol whose name holds no `$` and
/// type arguments whose mangled forms are plain words, the demangled
/// mangled name is the symbol's name followed, when there are type
/// arguments, by their mangled forms in angle brackets, joined by `", "`.
pub proof fn lemma_demangle_mangled(name: Seq<char>, args: Seq<TyView>, syms: Seq<Symbol>)
    requires
        forall|i: int| 0 <= i < name.len() ==> name[i] != '$',
        forall|i: int| 0 <= i < args.len() ==> plain_word(#[trigger] mangle_ty(args[i], syms)),
    ensures
        demangled(mangled_name(name, args, syms)) == Some(
            if args.len() == 0 {
                name
            } else {
                name + seq!['<'] + comma_list(mangled_words(args, syms)) + seq!['>']
            },
        ),
{
    reveal_strlit("_A$");
    reveal_strlit("$I");
    reveal_strlit("_$E");
    reveal_strlit("_");
    let a = mangle_args(args, syms);
    let m = mangled_name(name, args, syms);
    assert(m =~= seq!['_', 'A', '$'] + name + seq!['$', 'I'] + a + seq!['_', '$', 'E']);
    let body = name + seq!['$', 'I'] + a + seq!['_'];
    assert(framed_body(m) == Some(body)) by {
        assert(m.subrange(3, m.len() - 2) =~= body);
    }
    let p = name.len() as int;
    assert forall|k: int| 0 <= k < p implies !is_marker_at(body, k) by {
        assert(body[k] == name[k]);
    }
    lemma_marker_from_skip(body, 0, p);
    assert(is_marker_at(body, p));
    assert(marker_from(body, 0) == p);
    assert(body.subrange(0, p) =~= name);
    let rest = body.subrange(p + 2, body.len() as int);
    assert(rest =~= a + seq!['_']);
    if args.len() == 0 {
        assert(a =~= Seq::<char>::empty());
        assert(rest =~= seq!['_']);
        assert(rest.drop_first() =~= Seq::<char>::empty());
        assert(trim_start_underscores(rest) == trim_start_underscores(Seq::<char>::empty()));
        assert(trim_start_underscores(Seq::<char>::empty()) =~= Seq::<char>::empty());
        assert(trim_end_underscores(Seq::<char>::empty()) =~= Seq::<char>::empty());
        assert(trim_underscores(rest) =~= Seq::<char>::empty());
    } else {
        lemma_joined_args(args, syms);
        let j = joined_args(args, syms);
        assert(rest =~= seq!['_'] + j + seq!['_']);
        lemma_trim_frame(j);
    }
}

} // verus!
