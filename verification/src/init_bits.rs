use vstd::prelude::*;

verus! {

/// Identifies a local stack slot of a function.
#[derive(Debug, Clone, Copy, PartialEq, Eq, Hash, Structural)]
pub struct LocalId(pub u32);

impl LocalId {
    pub fn from_usize(n: usize) -> (r: LocalId)
        requires
            n <= u32::MAX,
        ensures
            r.0 == n,
    {
        LocalId(n as u32)
    }

    pub fn as_usize(self) -> (r: usize)
        ensures
            r == self.0,
    {
        self.0 as usize
    }
}

/// Bit `j` of `w`.
pub open spec fn bit(w: u64, j: u64) -> bool {
    (w >> j) & 1u64 == 1u64
}

/// The number of 64-bit words that hold `n` bits.
pub open spec fn words_for(n: nat) -> nat {
    (n + 63) / 64
}

proof fn lemma_bit_or(w: u64, k: u64, j: u64)
    requires
        k < 64,
        j < 64,
    ensures
        bit(w | (1u64 << k), j) == (j == k || bit(w, j)),
{
    assert(((w | (1u64 << k)) >> j) & 1u64 == 1u64 <==> (j == k || (w >> j) & 1u64 == 1u64))
        by (bit_vector)
        requires
            k < 64,
            j < 64,
    ;
}

proof fn lemma_bit_and(a: u64, b: u64, j: u64)
    requires
        j < 64,
    ensures
        bit(a & b, j) == (bit(a, j) && bit(b, j)),
{
    assert(((a & b) >> j) & 1u64 == 1u64 <==> ((a >> j) & 1u64 == 1u64 && (b >> j) & 1u64
        == 1u64)) by (bit_vector)
        requires
            j < 64,
    ;
}

proof fn lemma_bit_mask(w: u64, r: u64, j: u64)
    requires
        0 < r < 64,
        j < 64,
    ensures
        bit(w & (((1u64 << r) - 1u64) as u64), j) == (j < r && bit(w, j)),
{
    assert(((w & (((1u64 << r) - 1u64) as u64)) >> j) & 1u64 == 1u64 <==> (j < r && (w >> j) & 1u64
        == 1u64)) by (bit_vector)
        requires
            0 < r < 64,
            j < 64,
    ;
}

proof fn lemma_bit_constants(j: u64)
    requires
        j < 64,
    ensures
        bit(u64::MAX, j),
        !bit(0u64, j),
{
    assert((u64::MAX >> j) & 1u64 == 1u64) by (bit_vector)
        requires
            j < 64,
    ;
    assert(!((0u64 >> j) & 1u64 == 1u64)) by (bit_vector);
}

/// A set of locals, one bit per local, packed into 64-bit words.
#[derive(Debug, Clone, PartialEq, Eq)]
pub struct InitBits {
    words: Vec<u64>,
    len: usize,
}

impl View for InitBits {
    type V = Seq<bool>;

    /// Bit `i` for each local `i` below the capacity.
    closed spec fn view(&self) -> Seq<bool> {
        Seq::new(self.len as nat, |i: int| bit(self.words@[i / 64], (i % 64) as u64))
    }
}

impl InitBits {
    /// The internal invariant: exactly enough words for the capacity, and
    /// no bit set beyond it.
    pub closed spec fn wf(&self) -> bool {
        &&& self.words@.len() == words_for(self.len as nat)
        &&& forall|i: int|
            self.len <= i < self.words@.len() * 64 ==> !bit(
                #[trigger] self.words@[i / 64],
                (i % 64) as u64,
            )
    }

    /// The number of locals tracked.
    pub closed spec fn capacity(&self) -> nat {
        self.len as nat
    }

    fn word_count(n: usize) -> (r: usize)
        ensures
            r == words_for(n as nat),
    {
        n / 64 + if n % 64 != 0 {
            1
        } else {
            0
        }
    }

    /// No local of the `n` initialised.
    pub fn new(n: usize) -> (r: InitBits)
        ensures
            r.wf(),
            r@ == Seq::new(n as nat, |i: int| false),
    {
        let k = Self::word_count(n);
        let words = vec![0u64; k];
        let r = InitBits { words, len: n };
        proof {
            assert forall|i: int| 0 <= i < n implies !bit(#[trigger] words@[i / 64], (i % 64) as u64) by {
                lemma_bit_constants((i % 64) as u64);
            }
            assert forall|i: int| r.len <= i < r.words@.len() * 64 implies !bit(
                #[trigger] r.words@[i / 64],
                (i % 64) as u64,
            ) by {
                lemma_bit_constants((i % 64) as u64);
            }
        }
        assert(r@ =~= Seq::new(n as nat, |i: int| false));
        r
    }

    /// Every local of the `n` initialised.
    pub fn all_init(n: usize) -> (r: InitBits)
        ensures
            r.wf(),
            r@ == Seq::new(n as nat, |i: int| true),
    {
        let k = Self::word_count(n);
        let words = vec![u64::MAX; k];
        let mut bits = InitBits { words, len: n };
        proof {
            assert forall|i: int| 0 <= i < bits.words@.len() * 64 implies bit(
                #[trigger] bits.words@[i / 64],
                (i % 64) as u64,
            ) by {
                lemma_bit_constants((i % 64) as u64);
            }
        }
        bits.mask_tail();
        assert(bits@ =~= Seq::new(n as nat, |i: int| true));
        bits
    }

    /// Clears the bits of the last word that lie beyond the capacity.
    fn mask_tail(&mut self)
        requires
            old(self).words@.len() == words_for(old(self).len as nat),
        ensures
            final(self).wf(),
            final(self).len == old(self).len,
            final(self)@ == old(self)@,
    {
        let rem = self.len % 64;
        if rem == 0 {
            proof {
                assert forall|i: int| self.len <= i < self.words@.len() * 64 implies !bit(
                    #[trigger] self.words@[i / 64],
                    (i % 64) as u64,
                ) by {
                    assert(self.words@.len() * 64 == self.len);
                }
            }
            return;
        }
        let n = self.words.len();
        let ghost old_words = self.words@;
        let last = self.words[n - 1];
        let r = rem as u64;
        assert(1u64 << r >= 1u64) by (bit_vector)
            requires
                r < 64,
        ;
        let mask = (1u64 << r) - 1;
        self.words.set(n - 1, last & mask);
        proof {
            assert forall|i: int| 0 <= i < self.words@.len() * 64 implies bit(
                #[trigger] self.words@[i / 64],
                (i % 64) as u64,
            ) == (i < self.len && bit(old_words[i / 64], (i % 64) as u64)) by {
                if i / 64 == n - 1 {
                    lemma_bit_mask(last, r, (i % 64) as u64);
                    assert(self.len == (n - 1) * 64 + rem);
                } else {
                    assert(i < self.len);
                }
            }
        }
        assert(self@ =~= old(self)@);
    }

    /// Marks local `id` initialised; ids beyond the capacity are ignored.
    pub fn set(&mut self, id: LocalId)
        requires
            old(self).wf(),
        ensures
            final(self).wf(),
            final(self)@ == (if id.0 < old(self)@.len() {
                old(self)@.update(id.0 as int, true)
            } else {
                old(self)@
            }),
    {
        let idx = id.as_usize();
        if idx < self.len {
            let ghost old_words = self.words@;
            let w = idx / 64;
            let k = (idx % 64) as u64;
            let cur = self.words[w];
            self.words.set(w, cur | (1u64 << k));
            proof {
                assert forall|i: int| 0 <= i < self.words@.len() * 64 implies bit(
                    #[trigger] self.words@[i / 64],
                    (i % 64) as u64,
                ) == (i == idx || bit(old_words[i / 64], (i % 64) as u64)) by {
                    if i / 64 == w {
                        lemma_bit_or(cur, k, (i % 64) as u64);
                    }
                }
            }
            assert(self@ =~= old(self)@.update(idx as int, true));
        }
    }

    /// Whether local `id` is initialised; ids beyond the capacity are not.
    pub fn get(&self, id: LocalId) -> (r: bool)
        requires
            self.wf(),
        ensures
            r == (id.0 < self@.len() && self@[id.0 as int]),
    {
        let idx = id.as_usize();
        if idx >= self.len {
            return false;
        }
        let w = self.words[idx / 64];
        let k = (idx % 64) as u64;
        let r = (w & (1u64 << k)) != 0;
        assert(r == ((w >> k) & 1u64 == 1u64)) by (bit_vector)
            requires
                k < 64,
                r == ((w & (1u64 << k)) != 0),
        ;
        r
    }

    /// Keeps a local initialised only where `other` has it initialised too.
    /// Words of `self` beyond those of `other` are left as they are.
    pub fn intersect_with(&mut self, other: &InitBits)
        requires
            old(self).wf(),
            other.wf(),
        ensures
            final(self).wf(),
            final(self)@.len() == old(self)@.len(),
            forall|i: int|
                0 <= i < old(self)@.len() ==> #[trigger] final(self)@[i] == (old(self)@[i] && (
                i >= words_for(other@.len()) * 64 || (i < other@.len() && other@[i]))),
    {
        let ghost old_words = self.words@;
        let mut i: usize = 0;
        let n = if self.words.len() < other.words.len() {
            self.words.len()
        } else {
            other.words.len()
        };
        while i < n
            invariant
                self.len == old(self).len,
                old(self).wf(),
                old_words == old(self).words@,
                n <= self.words@.len(),
                n <= other.words@.len(),
                self.words@.len() == old_words.len(),
                i <= n,
                forall|j: int| 0 <= j < i ==> self.words@[j] == old_words[j] & other.words@[j],
                forall|j: int| i <= j < old_words.len() ==> self.words@[j] == old_words[j],
            decreases n - i,
        {
            let a = self.words[i];
            self.words.set(i, a & other.words[i]);
            i += 1;
        }
        proof {
            assert forall|j: int| 0 <= j < self.words@.len() * 64 implies bit(
                #[trigger] self.words@[j / 64],
                (j % 64) as u64,
            ) == (bit(old_words[j / 64], (j % 64) as u64) && (j >= other.words@.len() * 64 || bit(
                other.words@[j / 64],
                (j % 64) as u64,
            ))) by {
                if j / 64 < n {
                    lemma_bit_and(old_words[j / 64], other.words@[j / 64], (j % 64) as u64);
                }
            }
        }
        self.mask_tail();
    }
}

} // verus!
