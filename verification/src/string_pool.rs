use vstd::prelude::*;
use vstd::hash_map::StringHashMap;
use vstd::string::StringSliceAdditionalSpecFns;
use vstd::utf8::{decode_utf8, encode_utf8_decode_utf8, encode_utf8_valid_utf8, valid_utf8};

use crate::text::str_from_utf8;

verus! {

/// A string stored inline when its UTF-8 encoding takes at most 23 bytes,
/// and on the heap otherwise.
#[derive(Clone, PartialEq, Eq, Hash, Debug)]
pub enum SsoString {
    Inline { len: u8, data: [u8; 23] },
    Heap(String),
}

impl SsoString {
    /// An inline string holds a valid UTF-8 encoding in its first `len`
    /// bytes.
    pub open spec fn wf(&self) -> bool {
        match self {
            SsoString::Inline { len, data } => {
                &&& len <= 23
                &&& valid_utf8(data@.subrange(0, *len as int))
            },
            SsoString::Heap(_) => true,
        }
    }
}

impl View for SsoString {
    type V = Seq<char>;

    /// The characters of the string.
    open spec fn view(&self) -> Seq<char> {
        match self {
            SsoString::Inline { len, data } => decode_utf8(data@.subrange(0, *len as int)),
            SsoString::Heap(s) => s@,
        }
    }
}

impl SsoString {
    /// Stores `s`, inline when its encoding fits 23 bytes.
    pub fn new(s: &str) -> (r: SsoString)
        ensures
            r.wf(),
            r@ == s@,
            (r is Inline) == (s.spec_bytes().len() <= 23),
            r matches SsoString::Inline { len, data } ==> {
                &&& len == s.spec_bytes().len()
                &&& forall|j: int|
                    0 <= j < 23 ==> data@[j] == (if j < len {
                        s.spec_bytes()[j]
                    } else {
                        0u8
                    })
            },
    {
        let bytes = s.as_bytes();
        let len = bytes.len();
        if len <= 23 {
            let mut data = [0u8; 23];
            let mut i: usize = 0;
            while i < len
                invariant
                    len == bytes@.len(),
                    len <= 23,
                    i <= len,
                    data@.len() == 23,
                    forall|j: int| 0 <= j < i ==> data@[j] == bytes@[j],
                    forall|j: int| i <= j < 23 ==> data@[j] == 0u8,
                decreases len - i,
            {
                data[i] = bytes[i];
                i += 1;
            }
            proof {
                assert(data@.subrange(0, len as int) =~= bytes@);
                encode_utf8_valid_utf8(s@);
                encode_utf8_decode_utf8(s@);
            }
            SsoString::Inline { len: len as u8, data }
        } else {
            SsoString::Heap(s.to_owned())
        }
    }

    /// The stored string.
    pub fn as_str(&self) -> (r: &str)
        requires
            self.wf(),
        ensures
            r@ == self@,
    {
        match self {
            SsoString::Inline { len, data } => {
                let bytes = vstd::slice::slice_subrange(data.as_slice(), 0, *len as usize);
                let r = str_from_utf8(bytes);
                proof {
                    encode_utf8_decode_utf8(r@);
                }
                r
            },
            SsoString::Heap(s) => s.as_str(),
        }
    }
}

/// The handle of an interned string: its position in the pool.
#[derive(Debug, Clone, Copy, PartialEq, Eq, Hash, Structural)]
pub struct StringId(pub u32);

impl StringId {
    pub fn from_usize(n: usize) -> (r: StringId)
        requires
            n <= u32::MAX,
        ensures
            r.0 == n,
    {
        StringId(n as u32)
    }

    pub fn as_usize(self) -> (r: usize)
        ensures
            r == self.0,
    {
        self.0 as usize
    }
}

/// A deduplicating string interner: each distinct string is stored once
/// and named by a `StringId`.
pub struct StringPool {
    map: StringHashMap<StringId>,
    strings: Vec<SsoString>,
}

impl View for StringPool {
    type V = Seq<Seq<char>>;

    /// The interned strings, in the order they were first interned.
    closed spec fn view(&self) -> Seq<Seq<char>> {
        self.strings@.map_values(|s: SsoString| s@)
    }
}

impl StringPool {
    /// The internal invariant: the map sends each stored string to its
    /// position, and no string is stored twice.
    pub closed spec fn wf(&self) -> bool {
        let v = self@;
        &&& v.len() <= u32::MAX + 1
        &&& forall|i: int| 0 <= i < self.strings@.len() ==> #[trigger] self.strings@[i].wf()
        &&& forall|i: int, j: int| 0 <= i < j < v.len() ==> v[i] != v[j]
        &&& forall|k: Seq<char>|
            #![trigger self.map@.contains_key(k)]
            self.map@.contains_key(k) ==> {
                &&& self.map@[k].0 < v.len()
                &&& v[self.map@[k].0 as int] == k
            }
        &&& forall|i: int| 0 <= i < v.len() ==> #[trigger] self.map@.contains_key(v[i])
    }

    pub fn new() -> (r: StringPool)
        ensures
            r.wf(),
            r@ == Seq::<Seq<char>>::empty(),
    {
        let r = StringPool { map: StringHashMap::new(), strings: Vec::new() };
        assert(r@ =~= Seq::<Seq<char>>::empty());
        r
    }

    /// The handle of `s`, storing it first if it is new.
    pub fn intern(&mut self, s: &str) -> (r: StringId)
        requires
            old(self).wf(),
            old(self)@.contains(s@) || old(self)@.len() <= u32::MAX,
        ensures
            final(self).wf(),
            final(self)@ == (if old(self)@.contains(s@) {
                old(self)@
            } else {
                old(self)@.push(s@)
            }),
            r.0 < final(self)@.len(),
            final(self)@[r.0 as int] == s@,
            final(self)@.to_set() == old(self)@.to_set().insert(s@),
            final(self)@.no_duplicates(),
            old(self)@.contains(s@) ==> r.0 == old(self)@.index_of(s@),
            !old(self)@.contains(s@) ==> r.0 == old(self)@.len(),
    {
        proof {
            old(self).lemma_no_duplicates();
        }
        if let Some(id) = self.map.get(s) {
            proof {
                assert(self@[id.0 as int] == s@);
                assert(self@.to_set() =~= old(self)@.to_set().insert(s@));
            }
            return *id;
        }
        let ghost old_view = self@;
        assert(!old_view.contains(s@)) by {
            if old_view.contains(s@) {
                let i = choose|i: int| 0 <= i < old_view.len() && old_view[i] == s@;
                assert(old(self).map@.contains_key(old_view[i]));
            }
        }
        let sso = SsoString::new(s);
        let id = StringId::from_usize(self.strings.len());
        self.map.insert(s.to_owned(), id);
        self.strings.push(sso);
        proof {
            assert(self@ =~= old_view.push(s@));
            let nv = self@;
            assert forall|x: Seq<char>| nv.to_set().contains(x) == old_view.to_set().insert(s@).contains(x) by {
                if nv.contains(x) {
                    let j = choose|j: int| 0 <= j < nv.len() && nv[j] == x;
                    if j < old_view.len() {
                        assert(old_view[j] == x);
                    }
                }
                if old_view.contains(x) {
                    let j = choose|j: int| 0 <= j < old_view.len() && old_view[j] == x;
                    assert(nv[j] == x);
                }
                if x == s@ {
                    assert(nv[nv.len() - 1] == x);
                }
            }
            assert(nv.to_set() =~= old_view.to_set().insert(s@));
            assert(!old_view.contains(s@)) by {
                if old_view.contains(s@) {
                    let i = choose|i: int| 0 <= i < old_view.len() && old_view[i] == s@;
                    assert(old(self).map@.contains_key(old_view[i]));
                }
            }
        }
        id
    }

    /// The string named by `id`.
    pub fn resolve(&self, id: StringId) -> (r: &str)
        requires
            self.wf(),
            id.0 < self@.len(),
        ensures
            r@ == self@[id.0 as int],
    {
        self.strings[id.as_usize()].as_str()
    }

    /// The number of distinct strings interned.
    pub fn len(&self) -> (r: usize)
        ensures
            r == self@.len(),
    {
        self.strings.len()
    }

    /// Whether nothing has been interned.
    pub fn is_empty(&self) -> (r: bool)
        ensures
            r == (self@.len() == 0),
    {
        self.strings.len() == 0
    }

    /// No string is stored twice.
    pub proof fn lemma_no_duplicates(&self)
        requires
            self.wf(),
        ensures
            self@.no_duplicates(),
    {
    }

    /// The pool holds as many entries as distinct strings were interned:
    /// its length is the size of the set of interned strings.
    pub proof fn lemma_len_counts_distinct(&self)
        requires
            self.wf(),
        ensures
            self@.to_set().len() == self@.len(),
    {
        assert(self@.no_duplicates());
        self@.unique_seq_to_set();
    }

    /// In a well-formed pool each string has exactly one position, so
    /// interning the same string twice gives the same handle.
    pub proof fn lemma_positions_unique(&self, i: int, j: int)
        requires
            self.wf(),
            0 <= i < self@.len(),
            0 <= j < self@.len(),
            self@[i] == self@[j],
        ensures
            i == j,
    {
    }
}

/// The strings a new pool holds after interning `ss` in order: each
/// string once, where it was first interned.
pub open spec fn interned_strings(ss: Seq<Seq<char>>) -> Seq<Seq<char>>
    decreases ss.len(),
{
    if ss.len() == 0 {
        Seq::empty()
    } else {
        let before = interned_strings(ss.drop_last());
        if before.contains(ss.last()) {
            before
        } else {
            before.push(ss.last())
        }
    }
}

/// Interning one more string `s` changes `interned_strings` exactly as
/// `StringPool::intern` changes a pool: `s` is added at the end unless it
/// is there already.
pub proof fn lemma_interned_step(ss: Seq<Seq<char>>, s: Seq<char>)
    ensures
        interned_strings(ss.push(s)) == (if interned_strings(ss).contains(s) {
            interned_strings(ss)
        } else {
            interned_strings(ss).push(s)
        }),
{
    assert(ss.push(s).drop_last() =~= ss);
}

/// A new pool into which the strings `ss` were interned holds each of
/// them exactly once: its length is the number of distinct strings in
/// `ss`.
pub proof fn lemma_interned_len(ss: Seq<Seq<char>>)
    ensures
        interned_strings(ss).no_duplicates(),
        interned_strings(ss).to_set() == ss.to_set(),
        interned_strings(ss).len() == ss.to_set().len(),
    decreases ss.len(),
{
    let r = interned_strings(ss);
    if ss.len() == 0 {
        assert(ss.to_set() =~= Set::empty());
        assert(r.to_set() =~= Set::empty());
    } else {
        let rest = ss.drop_last();
        let x = ss.last();
        lemma_interned_len(rest);
        let before = interned_strings(rest);
        assert(ss == rest.push(x));
        assert forall|a: Seq<char>| ss.to_set().contains(a) <==> rest.to_set().insert(x).contains(a) by {
            if ss.to_set().contains(a) {
                let i = choose|i: int| 0 <= i < ss.len() && ss[i] == a;
                if i < ss.len() - 1 {
                    assert(rest[i] == a);
                    assert(rest.to_set().contains(a));
                }
            }
            if rest.to_set().contains(a) {
                let i = choose|i: int| 0 <= i < rest.len() && rest[i] == a;
                assert(ss[i] == a);
            }
            if a == x {
                assert(ss[ss.len() - 1] == a);
            }
        }
        assert(ss.to_set() =~= rest.to_set().insert(x));
        if before.contains(x) {
            assert(before.to_set().contains(x));
            assert(ss.to_set() =~= rest.to_set());
        } else {
            assert forall|a: Seq<char>| r.to_set().contains(a) <==> before.to_set().insert(x).contains(a) by {
                if r.to_set().contains(a) {
                    let i = choose|i: int| 0 <= i < r.len() && r[i] == a;
                    if i < r.len() - 1 {
                        assert(before[i] == a);
                    }
                }
                if before.to_set().contains(a) {
                    let i = choose|i: int| 0 <= i < before.len() && before[i] == a;
                    assert(r[i] == a);
                }
                if a == x {
                    assert(r[r.len() - 1] == a);
                }
            }
            assert(r.to_set() =~= before.to_set().insert(x));
            assert forall|i: int, j: int| 0 <= i < r.len() && 0 <= j < r.len() && i != j implies r[i] != r[j] by {
                if i == r.len() - 1 {
                    assert(before[j] == r[j]);
                } else if j == r.len() - 1 {
                    assert(before[i] == r[i]);
                }
            }
        }
    }
    r.unique_seq_to_set();
}

impl Default for StringPool {
    fn default() -> (r: Self)
        ensures
            r.wf(),
            r@ == Seq::<Seq<char>>::empty(),
    {
        StringPool::new()
    }
}

} // verus!
