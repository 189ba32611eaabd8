use vstd::prelude::*;

use crate::text::chars_of;

verus! {

/// The characters between the `_A$` that opens a mangled name and the
/// `$E` that closes it, if it has both.
pub open spec fn framed_body(m: Seq<char>) -> Option<Seq<char>> {
    if m.len() >= 5 && m[0] == '_' && m[1] == 'A' && m[2] == '$' && m[m.len() - 2] == '$'
        && m[m.len() - 1] == 'E' {
        Some(m.subrange(3, m.len() - 2))
    } else {
        None
    }
}

/// Whether the two characters `$I` start at position `i` of `s`.
pub open spec fn is_marker_at(s: Seq<char>, i: int) -> bool {
    0 <= i && i + 1 < s.len() && s[i] == '$' && s[i + 1] == 'I'
}

/// The first position at or after `i` where `$I` starts, or -1.
pub open spec fn marker_from(s: Seq<char>, i: int) -> int
    decreases s.len() - i,
{
    if i < 0 || i + 1 >= s.len() {
        -1
    } else if is_marker_at(s, i) {
        i
    } else {
        marker_from(s, i + 1)
    }
}

/// `s` without its leading underscores.
pub open spec fn trim_start_underscores(s: Seq<char>) -> Seq<char>
    decreases s.len(),
{
    if s.len() > 0 && s[0] == '_' {
        trim_start_underscores(s.drop_first())
    } else {
        s
    }
}

/// `s` without its trailing underscores.
pub open spec fn trim_end_underscores(s: Seq<char>) -> Seq<char>
    decreases s.len(),
{
    if s.len() > 0 && s.last() == '_' {
        trim_end_underscores(s.drop_last())
    } else {
        s
    }
}

/// `s` without underscores at either end.
pub open spec fn trim_underscores(s: Seq<char>) -> Seq<char> {
    trim_end_underscores(trim_start_underscores(s))
}

/// `s` with each run of underscores replaced by `", "`: on a sequence with
/// no underscore at either end, this is its underscore-separated words
/// joined by `", "`.
pub open spec fn collapse_separators(s: Seq<char>) -> Seq<char>
    decreases s.len(),
{
    if s.len() == 0 {
        Seq::empty()
    } else if s.last() == '_' {
        if s.len() > 1 && s[s.len() - 2] == '_' {
            collapse_separators(s.drop_last())
        } else {
            collapse_separators(s.drop_last()) + seq![',', ' ']
        }
    } else {
        collapse_separators(s.drop_last()).push(s.last())
    }
}

/// The readable form of a mangled name: `None` unless it is framed by
/// `_A$` and `$E` with a `$I` inside; otherwise the name before the first
/// `$I`, followed, when any type text is left after trimming underscores,
/// by that text in angle brackets with its words joined by `", "`.
pub open spec fn demangled(m: Seq<char>) -> Option<Seq<char>> {
    match framed_body(m) {
        None => None,
        Some(body) => {
            let p = marker_from(body, 0);
            if p < 0 {
                None
            } else {
                let name = body.subrange(0, p);
                let types = trim_underscores(body.subrange(p + 2, body.len() as int));
                if types.len() == 0 {
                    Some(name)
                } else {
                    Some(name + seq!['<'] + collapse_separators(types) + seq!['>'])
                }
            }
        },
    }
}

pub(crate) proof fn lemma_marker_from_skip(s: Seq<char>, i: int, j: int)
    requires
        0 <= i <= j,
        forall|k: int| i <= k < j ==> !is_marker_at(s, k),
    ensures
        marker_from(s, i) == marker_from(s, j),
    decreases j - i,
{
    if i < j {
        lemma_marker_from_skip(s, i + 1, j);
    }
}

/// Demangles a name made by the mangler back to a readable form:
/// `_A$identity$I__int_$E` becomes `identity<int>`.
pub fn demangle_symbol(mangled: &str) -> (r: Option<String>)
    ensures
        match r {
            None => demangled(mangled@) is None,
            Some(s) => demangled(mangled@) == Some(s@),
        },
{
    let c = chars_of(mangled);
    let n = c.len();
    if n < 5 || c[0] != '_' || c[1] != 'A' || c[2] != '$' || c[n - 2] != '$' || c[n - 1] != 'E' {
        return None;
    }
    let ghost body = c@.subrange(3, n - 2);
    let end = n - 2;
    let mut p: usize = 3;
    while p + 1 < end && !(c[p] == '$' && c[p + 1] == 'I')
        invariant
            c@ == mangled@,
            n == c@.len(),
            end == n - 2,
            n >= 5,
            body == c@.subrange(3, end as int),
            3 <= p <= end,
            forall|k: int| 0 <= k < p - 3 ==> !is_marker_at(body, k),
        decreases end - p,
    {
        p += 1;
    }
    proof {
        lemma_marker_from_skip(body, 0, p - 3);
    }
    if p + 1 >= end {
        return None;
    }
    assert(is_marker_at(body, p - 3));
    let mut lo: usize = p + 2;
    let ghost rest = c@.subrange(p + 2, end as int);
    assert(rest =~= body.subrange(p - 3 + 2, body.len() as int));
    while lo < end && c[lo] == '_'
        invariant
            c@ == mangled@,
            n == c@.len(),
            end == n - 2,
            p + 2 <= lo <= end,
            rest == c@.subrange(p + 2, end as int),
            trim_start_underscores(rest) == trim_start_underscores(c@.subrange(lo as int, end as int)),
        decreases end - lo,
    {
        assert(c@.subrange(lo as int, end as int).drop_first() =~= c@.subrange(lo + 1, end as int));
        lo += 1;
    }
    let mut hi: usize = end;
    assert(trim_start_underscores(c@.subrange(lo as int, end as int)) == c@.subrange(lo as int, end as int));
    while hi > lo && c[hi - 1] == '_'
        invariant
            c@ == mangled@,
            n == c@.len(),
            end == n - 2,
            lo <= hi <= end,
            trim_underscores(rest) == trim_end_underscores(c@.subrange(lo as int, hi as int)),
        decreases hi - lo,
    {
        assert(c@.subrange(lo as int, hi as int).drop_last() =~= c@.subrange(lo as int, hi - 1));
        hi -= 1;
    }
    let ghost types = c@.subrange(lo as int, hi as int);
    assert(trim_underscores(rest) == types);
    let mut out = String::from_str(mangled.substring_char(3, p));
    assert(out@ =~= body.subrange(0, p - 3));
    if lo == hi {
        return Some(out);
    }
    out.append("<");
    proof {
        reveal_strlit("<");
        reveal_strlit(", ");
        reveal_strlit(">");
    }
    let ghost head = out@;
    let mut i: usize = lo;
    while i < hi
        invariant
            c@ == mangled@,
            n == c@.len(),
            lo < hi <= n,
            lo <= i <= hi,
            out@ == head + collapse_separators(c@.subrange(lo as int, i as int)),
            ", "@ == seq![',', ' '],
        decreases hi - i,
    {
        let ghost before = c@.subrange(lo as int, i as int);
        assert(c@.subrange(lo as int, i + 1).drop_last() =~= before);
        if c[i] == '_' {
            if i > lo && c[i - 1] == '_' {
            } else {
                out.append(", ");
            }
        } else {
            out.append(mangled.substring_char(i, i + 1));
        }
        i += 1;
        assert(out@ =~= head + collapse_separators(c@.subrange(lo as int, i as int)));
    }
    out.append(">");
    assert(out@ =~= body.subrange(0, p - 3) + seq!['<'] + collapse_separators(types) + seq!['>']);
    Some(out)
}

} // verus!
