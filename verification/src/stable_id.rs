use vstd::prelude::*;

use std::marker::PhantomData;

verus! {

/// A typed handle made of a slot index and the generation of that slot at
/// the time the handle was issued; a handle whose generation is out of
/// date refers to nothing. Handles order by index, then by generation.
#[derive(Debug, Hash, PartialOrd, Ord)]
pub struct GenerationalId<T> {
    index: u32,
    generation: u32,
    _marker: PhantomData<T>,
}

impl<T> View for GenerationalId<T> {
    type V = (u32, u32);

    closed spec fn view(&self) -> (u32, u32) {
        (self.index, self.generation)
    }
}

impl<T> GenerationalId<T> {
    pub fn new(index: u32, generation: u32) -> (r: Self)
        ensures
            r@ == (index, generation),
    {
        GenerationalId { index, generation, _marker: PhantomData }
    }

    /// The slot index of this handle.
    pub fn index(self) -> (r: u32)
        ensures
            r == self@.0,
    {
        self.index
    }

    /// The generation of this handle.
    pub fn generation(self) -> (r: u32)
        ensures
            r == self@.1,
    {
        self.generation
    }
}

impl<T> Clone for GenerationalId<T> {
    fn clone(&self) -> (r: Self)
        ensures
            r@ == self@,
    {
        GenerationalId { index: self.index, generation: self.generation, _marker: PhantomData }
    }
}

impl<T> Copy for GenerationalId<T> {
}

impl<T> PartialEq for GenerationalId<T> {
    fn eq(&self, other: &Self) -> (r: bool) {
        self.index == other.index && self.generation == other.generation
    }
}

impl<T> vstd::std_specs::cmp::PartialEqSpecImpl for GenerationalId<T> {
    open spec fn obeys_eq_spec() -> bool {
        true
    }

    open spec fn eq_spec(&self, other: &Self) -> bool {
        self@ == other@
    }
}

impl<T> Eq for GenerationalId<T> {
}

#[derive(Debug, Clone)]
struct Slot<T> {
    value: Option<T>,
    generation: u32,
    next_free: Option<u32>,
}

/// The number of occupied slots.
spec fn count_live<T>(slots: Seq<Slot<T>>) -> nat
    decreases slots.len(),
{
    if slots.len() == 0 {
        0
    } else {
        count_live(slots.drop_last()) + if slots.last().value is Some {
            1nat
        } else {
            0nat
        }
    }
}

proof fn lemma_count_live_update<T>(slots: Seq<Slot<T>>, i: int, s: Slot<T>)
    requires
        0 <= i < slots.len(),
    ensures
        count_live(slots.update(i, s)) == count_live(slots) - (if slots[i].value is Some {
            1int
        } else {
            0int
        }) + (if s.value is Some {
            1int
        } else {
            0int
        }),
    decreases slots.len(),
{
    if i < slots.len() - 1 {
        assert(slots.update(i, s).drop_last() =~= slots.drop_last().update(i, s));
        lemma_count_live_update(slots.drop_last(), i, s);
    } else {
        assert(slots.update(i, s).drop_last() =~= slots.drop_last());
    }
}

proof fn lemma_count_live_bound<T>(slots: Seq<Slot<T>>)
    ensures
        count_live(slots) <= slots.len(),
    decreases slots.len(),
{
    if slots.len() > 0 {
        lemma_count_live_bound(slots.drop_last());
    }
}

proof fn lemma_count_live_none<T>(slots: Seq<Slot<T>>)
    requires
        forall|j: int| 0 <= j < slots.len() ==> (#[trigger] slots[j]).value is None,
    ensures
        count_live(slots) == 0,
    decreases slots.len(),
{
    if slots.len() > 0 {
        lemma_count_live_none(slots.drop_last());
    }
}

proof fn lemma_count_live_push<T>(slots: Seq<Slot<T>>, s: Slot<T>)
    ensures
        count_live(slots.push(s)) == count_live(slots) + (if s.value is Some {
            1nat
        } else {
            0nat
        }),
{
    assert(slots.push(s).drop_last() =~= slots);
}

/// A generational slot map: values live in slots that are reused after a
/// removal; every reuse raises the slot's generation, so that handles to
/// removed values stay invalid.
pub struct SlotMap<T> {
    slots: Vec<Slot<T>>,
    free_head: Option<u32>,
    len: usize,
    /// The chain of free slots, from `free_head` on.
    free_list: Ghost<Seq<u32>>,
    /// How many values were ever inserted.
    inserted: Ghost<nat>,
    /// How many values were ever removed or cleared away.
    dropped: Ghost<nat>,
}

impl<T> View for SlotMap<T> {
    type V = Map<(u32, u32), T>;

    /// The live entries, keyed by (slot index, generation).
    closed spec fn view(&self) -> Map<(u32, u32), T> {
        Map::new(
            |k: (u32, u32)|
                k.0 < self.slots@.len() && self.slots@[k.0 as int].value is Some
                    && self.slots@[k.0 as int].generation == k.1,
            |k: (u32, u32)| self.slots@[k.0 as int].value.unwrap(),
        )
    }
}

impl<T> SlotMap<T> {
    /// The internal invariant: the free chain runs through distinct empty
    /// slots, `len` counts the occupied ones, and no slot count or
    /// generation exceeds the number of inserts.
    pub closed spec fn wf(&self) -> bool {
        let fl = self.free_list@;
        let s = self.slots@;
        &&& s.len() <= u32::MAX
        &&& self.free_head == (if fl.len() == 0 {
            None
        } else {
            Some(fl[0])
        })
        &&& forall|k: int|
            #![trigger fl[k]]
            0 <= k < fl.len() ==> {
                &&& fl[k] < s.len()
                &&& s[fl[k] as int].value is None
                &&& s[fl[k] as int].next_free == (if k + 1 < fl.len() {
                    Some(fl[k + 1])
                } else {
                    None
                })
            }
        &&& forall|j: int, k: int| 0 <= j < k < fl.len() ==> fl[j] != fl[k]
        &&& self.len == count_live(s)
        &&& s.len() <= self.inserted@
        &&& forall|i: int| 0 <= i < s.len() ==> (#[trigger] s[i]).generation <= self.inserted@
        &&& count_live(s) + self.dropped@ == self.inserted@
    }

    /// The number of slots ever allocated.
    pub closed spec fn slot_count(&self) -> nat {
        self.slots@.len()
    }

    /// The current generation of slot `i`.
    pub closed spec fn generation_at(&self, i: int) -> u32 {
        self.slots@[i].generation
    }

    /// The free slots, in the order in which `insert` reuses them.
    pub closed spec fn free_slots(&self) -> Seq<u32> {
        self.free_list@
    }

    /// How many values were ever inserted.
    pub closed spec fn insert_count(&self) -> nat {
        self.inserted@
    }

    /// How many values were ever taken out, by `remove` or `clear`.
    pub closed spec fn drop_count(&self) -> nat {
        self.dropped@
    }

    /// The number of live entries is the number of values inserted less
    /// the number taken out.
    pub proof fn lemma_len_counts(&self)
        requires
            self.wf(),
        ensures
            self@.dom().len() + self.drop_count() == self.insert_count(),
    {
        self.lemma_len();
    }

    /// Whether `insert` can run without an index or generation overflow:
    /// a fresh slot still has an index that fits `u32`, a reused slot a
    /// generation that can be raised.
    pub open spec fn can_insert(&self) -> bool {
        if self.free_slots().len() > 0 {
            self.generation_at(self.free_slots()[0] as int) < u32::MAX
        } else {
            self.slot_count() < u32::MAX
        }
    }

    /// Whether handle `k` is dead for good: its slot exists, its
    /// generation is not ahead of the slot's, and it names no live value.
    /// Every operation keeps a retired handle retired.
    pub open spec fn is_retired(&self, k: (u32, u32)) -> bool {
        &&& k.0 < self.slot_count()
        &&& k.1 <= self.generation_at(k.0 as int)
        &&& !self@.contains_key(k)
    }

    /// A map into which fewer than `u32::MAX` values were ever inserted can
    /// take one more.
    pub proof fn lemma_can_insert(&self)
        requires
            self.wf(),
            self.insert_count() < u32::MAX,
        ensures
            self.can_insert(),
    {
        let fl = self.free_list@;
        if fl.len() > 0 {
            assert(fl[0] < self.slots@.len());
            assert(self.slots@[fl[0] as int].generation <= self.inserted@);
        }
    }

    /// Every live key names an allocated slot and that slot's current
    /// generation.
    pub proof fn lemma_live_keys(&self, k: (u32, u32))
        requires
            self.wf(),
            self@.contains_key(k),
        ensures
            k.0 < self.slot_count(),
            k.1 == self.generation_at(k.0 as int),
    {
    }

    pub fn new() -> (r: Self)
        ensures
            r.wf(),
            r@ == Map::<(u32, u32), T>::empty(),
            r.slot_count() == 0,
            r.free_slots() == Seq::<u32>::empty(),
            r.insert_count() == 0,
            r.drop_count() == 0,
    {
        let r = SlotMap {
            slots: Vec::new(),
            free_head: None,
            len: 0,
            free_list: Ghost(Seq::empty()),
            inserted: Ghost(0),
            dropped: Ghost(0),
        };
        assert(r@ =~= Map::<(u32, u32), T>::empty());
        r
    }

    /// Stores `value` and returns its handle: the first free slot is
    /// reused with a raised generation; without one a new slot is added
    /// with generation 1.
    pub fn insert(&mut self, value: T) -> (r: GenerationalId<T>)
        requires
            old(self).wf(),
            old(self).can_insert(),
        ensures
            final(self).wf(),
            !old(self)@.contains_key(r@),
            final(self)@ == old(self)@.insert(r@, value),
            final(self)@.dom().len() == old(self)@.dom().len() + 1,
            final(self).insert_count() == old(self).insert_count() + 1,
            final(self).drop_count() == old(self).drop_count(),
            r@.0 < final(self).slot_count(),
            final(self).generation_at(r@.0 as int) == r@.1,
            old(self).free_slots().len() > 0 ==> {
                &&& r@.0 == old(self).free_slots()[0]
                &&& final(self).free_slots() == old(self).free_slots().drop_first()
                &&& final(self).slot_count() == old(self).slot_count()
                &&& r@.1 == old(self).generation_at(r@.0 as int) + 1
            },
            old(self).free_slots().len() == 0 ==> {
                &&& r@.0 == old(self).slot_count()
                &&& r@.1 == 1
                &&& final(self).slot_count() == old(self).slot_count() + 1
                &&& final(self).free_slots() == old(self).free_slots()
            },
            r@.0 < old(self).slot_count() ==> {
                &&& final(self).slot_count() == old(self).slot_count()
                &&& r@.1 > old(self).generation_at(r@.0 as int)
            },
            r@.0 >= old(self).slot_count() ==> {
                &&& r@.0 == old(self).slot_count()
                &&& r@.1 == 1
                &&& final(self).slot_count() == old(self).slot_count() + 1
            },
            forall|i: int|
                0 <= i < old(self).slot_count() && i != r@.0 ==> final(self).generation_at(i)
                    == old(self).generation_at(i),
            forall|k: (u32, u32)| #[trigger] old(self).is_retired(k) ==> final(self).is_retired(k),
    {
        let ghost old_slots = self.slots@;
        proof {
            old(self).lemma_len();
        }
        let r = if let Some(index) = self.free_head {
            let ghost fl = self.free_list@;
            assert(fl[0] == index);
            let slot = &mut self.slots[index as usize];
            let next_free = slot.next_free;
            slot.value = Some(value);
            slot.generation = slot.generation + 1;
            slot.next_free = None;
            self.free_head = next_free;
            proof {
                lemma_count_live_update(old_slots, index as int, self.slots@[index as int]);
                lemma_count_live_bound(self.slots@);
                self.free_list = Ghost(fl.drop_first());
                self.inserted = Ghost(self.inserted@ + 1);
                assert forall|k: int| 0 <= k < fl.len() implies fl[k] < old_slots.len() by {}
                assert forall|k: int| 1 <= k < fl.len() implies fl[k] != index by {
                    assert(fl[0] != fl[k]);
                }
                assert forall|i: int| 0 <= i < self.slots@.len() implies (#[trigger] self.slots@[i]).generation
                    <= self.inserted@ by {
                    if i != index {
                        assert(self.slots@[i] == old_slots[i]);
                    }
                }
            }
            self.len = self.len + 1;
            let r = GenerationalId::new(index, self.slots[index as usize].generation);
            assert(self@ =~= old(self)@.insert(r@, value));
            r
        } else {
            let index = self.slots.len() as u32;
            let slot = Slot { value: Some(value), generation: 1, next_free: None };
            self.slots.push(slot);
            proof {
                lemma_count_live_push(old_slots, slot);
                lemma_count_live_bound(self.slots@);
                self.inserted = Ghost(self.inserted@ + 1);
                assert forall|i: int| 0 <= i < self.slots@.len() implies (#[trigger] self.slots@[i]).generation
                    <= self.inserted@ by {
                    if i < old_slots.len() {
                        assert(self.slots@[i] == old_slots[i]);
                    }
                }
            }
            self.len = self.len + 1;
            let r = GenerationalId::new(index, 1);
            assert(self@ =~= old(self)@.insert(r@, value));
            r
        };
        proof {
            self.lemma_len();
            assert(self@.dom() =~= old(self)@.dom().insert(r@));
            assert forall|k: (u32, u32)| #[trigger] old(self).is_retired(k) implies self.is_retired(k) by {
                if k.0 != r@.0 {
                    assert(self.slots@[k.0 as int] == old_slots[k.0 as int]);
                }
            }
        }
        r
    }

    /// The value stored under `key`, if the key is live.
    pub fn get(&self, key: GenerationalId<T>) -> (r: Option<&T>)
        requires
            self.wf(),
        ensures
            match r {
                Some(v) => self@.contains_key(key@) && *v == self@[key@],
                None => !self@.contains_key(key@),
            },
    {
        let index = key.index() as usize;
        if index >= self.slots.len() {
            return None;
        }
        let slot = &self.slots[index];
        if slot.generation == key.generation() {
            slot.value.as_ref()
        } else {
            None
        }
    }

    /// The value stored under `key`, for modification, if the key is live.
    pub fn get_mut(&mut self, key: GenerationalId<T>) -> (r: Option<&mut T>)
        requires
            old(self).wf(),
        ensures
            final(self).wf(),
            final(self).slot_count() == old(self).slot_count(),
            final(self).free_slots() == old(self).free_slots(),
            final(self).insert_count() == old(self).insert_count(),
            final(self).drop_count() == old(self).drop_count(),
            forall|i: int|
                0 <= i < old(self).slot_count() ==> final(self).generation_at(i)
                    == old(self).generation_at(i),
            match r {
                Some(v) => {
                    &&& old(self)@.contains_key(key@)
                    &&& *v == old(self)@[key@]
                    &&& final(self)@ == old(self)@.insert(key@, *final(v))
                },
                None => {
                    &&& !old(self)@.contains_key(key@)
                    &&& final(self)@ == old(self)@
                },
            },
    {
        let index = key.index() as usize;
        if index >= self.slots.len() {
            return None;
        }
        let ghost old_slots = self.slots@;
        if self.slots[index].generation == key.generation() {
            let slot = &mut self.slots[index];
            proof {
                lemma_count_live_update(old_slots, index as int, *final(slot));
            }
            slot.value.as_mut()
        } else {
            None
        }
    }

    /// Removes and returns the value stored under `key`, if the key is
    /// live; the slot joins the front of the free chain.
    pub fn remove(&mut self, key: GenerationalId<T>) -> (r: Option<T>)
        requires
            old(self).wf(),
        ensures
            final(self).wf(),
            final(self).slot_count() == old(self).slot_count(),
            final(self).insert_count() == old(self).insert_count(),
            forall|i: int|
                0 <= i < old(self).slot_count() ==> final(self).generation_at(i)
                    == old(self).generation_at(i),
            forall|k: (u32, u32)| #[trigger] old(self).is_retired(k) ==> final(self).is_retired(k),
            match r {
                Some(v) => {
                    &&& old(self)@.contains_key(key@)
                    &&& v == old(self)@[key@]
                    &&& final(self)@ == old(self)@.remove(key@)
                    &&& final(self)@.dom().len() + 1 == old(self)@.dom().len()
                    &&& final(self).drop_count() == old(self).drop_count() + 1
                    &&& final(self).free_slots() == seq![key@.0] + old(self).free_slots()
                    &&& final(self).is_retired(key@)
                },
                None => {
                    &&& !old(self)@.contains_key(key@)
                    &&& final(self)@ == old(self)@
                    &&& final(self).drop_count() == old(self).drop_count()
                    &&& final(self).free_slots() == old(self).free_slots()
                },
            },
    {
        let index = key.index() as usize;
        if index >= self.slots.len() {
            return None;
        }
        let ghost old_slots = self.slots@;
        let ghost fl = self.free_list@;
        let old_head = self.free_head;
        if self.slots[index].generation == key.generation() && self.slots[index].value.is_some() {
            let slot = &mut self.slots[index];
            let val = slot.value.take();
            slot.next_free = old_head;
            self.free_head = Some(key.index());
            proof {
                lemma_count_live_update(old_slots, index as int, self.slots@[index as int]);
                self.dropped = Ghost(self.dropped@ + 1);
                self.free_list = Ghost(seq![key@.0].add(fl));
                assert forall|k: int| 0 <= k < fl.len() implies fl[k] != key@.0 by {
                    assert(old_slots[fl[k] as int].value is None);
                }
                let nfl = self.free_list@;
                assert forall|k: int| 0 < k < nfl.len() implies nfl[k] == fl[k - 1] by {}
                assert forall|i: int| 0 <= i < self.slots@.len() implies (#[trigger] self.slots@[i]).generation
                    <= self.inserted@ by {
                    if i != index {
                        assert(self.slots@[i] == old_slots[i]);
                    }
                }
            }
            self.len = self.len - 1;
            assert(self@ =~= old(self)@.remove(key@));
            proof {
                old(self).lemma_len();
                self.lemma_len();
                assert forall|k: (u32, u32)| #[trigger] old(self).is_retired(k) implies self.is_retired(k) by {
                    if k.0 != index {
                        assert(self.slots@[k.0 as int] == old_slots[k.0 as int]);
                    }
                }
            }
            val
        } else {
            None
        }
    }

    /// Whether `key` is live.
    pub fn contains_key(&self, key: GenerationalId<T>) -> (r: bool)
        requires
            self.wf(),
        ensures
            r == self@.contains_key(key@),
    {
        self.get(key).is_some()
    }

    /// The number of live entries.
    pub fn len(&self) -> (r: usize)
        requires
            self.wf(),
        ensures
            r == self@.dom().len(),
    {
        proof {
            self.lemma_len();
        }
        self.len
    }

    /// Whether no entry is live.
    pub fn is_empty(&self) -> (r: bool)
        requires
            self.wf(),
        ensures
            r == (self@.dom().len() == 0),
    {
        proof {
            self.lemma_len();
        }
        self.len == 0
    }

    /// Empties every slot: the slots and their generations stay, and all
    /// of them become free, in index order, so that no handle issued
    /// before ever resolves again.
    #[verifier::rlimit(40)]
    pub fn clear(&mut self)
        requires
            old(self).wf(),
        ensures
            final(self).wf(),
            final(self)@ == Map::<(u32, u32), T>::empty(),
            final(self).slot_count() == old(self).slot_count(),
            final(self).insert_count() == old(self).insert_count(),
            final(self).drop_count() == old(self).drop_count() + old(self)@.dom().len(),
            forall|i: int|
                0 <= i < old(self).slot_count() ==> final(self).generation_at(i)
                    == old(self).generation_at(i),
            final(self).free_slots() == Seq::new(old(self).slot_count(), |i: int| i as u32),
            forall|k: (u32, u32)| #[trigger] old(self)@.contains_key(k) ==> final(self).is_retired(k),
            forall|k: (u32, u32)| #[trigger] old(self).is_retired(k) ==> final(self).is_retired(k),
    {
        let ghost old_slots = self.slots@;
        let n = self.slots.len();
        let mut i: usize = n;
        let mut head: Option<u32> = None;
        while i > 0
            invariant
                n == self.slots@.len(),
                n == old_slots.len(),
                n <= u32::MAX,
                self.inserted@ == old(self).inserted@,
                self.dropped@ == old(self).dropped@,
                i <= n,
                forall|j: int| 0 <= j < n ==> (#[trigger] self.slots@[j]).generation == old_slots[j].generation,
                forall|j: int| i <= j < n ==> (#[trigger] self.slots@[j]).value is None,
                forall|j: int|
                    i <= j < n ==> (#[trigger] self.slots@[j]).next_free == (if j + 1 < n {
                        Some((j + 1) as u32)
                    } else {
                        None
                    }),
                head == (if i < n {
                    Some(i as u32)
                } else {
                    None
                }),
            decreases i,
        {
            i -= 1;
            let slot = &mut self.slots[i];
            slot.value = None;
            slot.next_free = head;
            head = Some(i as u32);
        }
        self.free_head = head;
        self.len = 0;
        proof {
            let fl = Seq::new(n as nat, |j: int| j as u32);
            self.free_list = Ghost(fl);
            old(self).lemma_len();
            self.dropped = Ghost(self.dropped@ + count_live(old_slots));
            lemma_count_live_none(self.slots@);
            assert forall|k: int| #![trigger fl[k]] 0 <= k < fl.len() implies {
                &&& fl[k] < self.slots@.len()
                &&& self.slots@[fl[k] as int].value is None
                &&& self.slots@[fl[k] as int].next_free == (if k + 1 < fl.len() {
                    Some(fl[k + 1])
                } else {
                    None
                })
            } by {
                assert(fl[k] as int == k);
            }
            assert forall|i: int| 0 <= i < self.slots@.len() implies (#[trigger] self.slots@[i]).generation
                <= self.inserted@ by {
                assert(old_slots[i].generation <= old(self).inserted@);
            }
        }
        assert(self@ =~= Map::<(u32, u32), T>::empty());
    }

    proof fn lemma_len(&self)
        requires
            self.wf(),
        ensures
            self@.dom().finite(),
            self.len == self@.dom().len(),
    {
        lemma_live_dom(self.slots@);
        assert(self@.dom() =~= live_keys(self.slots@));
    }
}

/// The keys of the occupied slots.
spec fn live_keys<T>(slots: Seq<Slot<T>>) -> Set<(u32, u32)> {
    Set::new(
        |k: (u32, u32)|
            k.0 < slots.len() && slots[k.0 as int].value is Some && slots[k.0 as int].generation
                == k.1,
    )
}

proof fn lemma_live_dom<T>(slots: Seq<Slot<T>>)
    requires
        slots.len() <= u32::MAX,
    ensures
        live_keys(slots).finite(),
        live_keys(slots).len() == count_live(slots),
    decreases slots.len(),
{
    if slots.len() == 0 {
        assert(live_keys(slots) =~= Set::empty());
    } else {
        let prev = slots.drop_last();
        lemma_live_dom(prev);
        let i = (slots.len() - 1) as u32;
        let k = (i, slots.last().generation);
        if slots.last().value is Some {
            assert(live_keys(slots) =~= live_keys(prev).insert(k));
            assert(!live_keys(prev).contains(k));
        } else {
            assert(live_keys(slots) =~= live_keys(prev));
        }
    }
}

impl<T> Default for SlotMap<T> {
    fn default() -> (r: Self)
        ensures
            r.wf(),
            r@ == Map::<(u32, u32), T>::empty(),
    {
        Self::new()
    }
}

/// A handle that is dead stays dead when a value is inserted, provided
/// its generation is not ahead of its slot's: reusing a slot always
/// raises the generation.
pub proof fn lemma_insert_keeps_dead_keys_dead<T>(
    before: SlotMap<T>,
    after: SlotMap<T>,
    r: (u32, u32),
    value: T,
    k: (u32, u32),
)
    requires
        before.wf(),
        after.wf(),
        !before@.contains_key(r),
        after@ == before@.insert(r, value),
        r.0 < after.slot_count(),
        r.0 < before.slot_count() ==> r.1 > before.generation_at(r.0 as int),
        r.0 >= before.slot_count() ==> r.0 == before.slot_count(),
        !before@.contains_key(k),
        k.0 < before.slot_count(),
        k.1 <= before.generation_at(k.0 as int),
    ensures
        !after@.contains_key(k),
{
}

} // verus!
