use vstd::prelude::*;

use crate::symbol_table::Symbol;
use crate::text::chars_of;

verus! {

/// The smallest of three numbers.
pub open spec fn min3(x: nat, y: nat, z: nat) -> nat {
    if x <= y && x <= z {
        x
    } else if y <= z {
        y
    } else {
        z
    }
}

/// The Levenshtein distance: the fewest single-character insertions,
/// deletions and substitutions that turn `a` into `b`.
pub open spec fn edit_distance(a: Seq<char>, b: Seq<char>) -> nat
    decreases a.len() + b.len(),
{
    if a.len() == 0 {
        b.len()
    } else if b.len() == 0 {
        a.len()
    } else {
        min3(
            edit_distance(a.drop_last(), b) + 1,
            edit_distance(a, b.drop_last()) + 1,
            edit_distance(a.drop_last(), b.drop_last()) + if a.last() == b.last() {
                0nat
            } else {
                1nat
            },
        )
    }
}

proof fn lemma_edit_distance_bound(a: Seq<char>, b: Seq<char>)
    ensures
        edit_distance(a, b) <= a.len() + b.len(),
    decreases a.len() + b.len(),
{
    if a.len() > 0 && b.len() > 0 {
        lemma_edit_distance_bound(a.drop_last(), b);
    }
}

/// The Levenshtein distance between `left` and `right`, by rows of the
/// dynamic-programming table.
pub fn levenshtein(left: &str, right: &str) -> (r: usize)
    requires
        left@.len() + right@.len() < usize::MAX,
    ensures
        r == edit_distance(left@, right@),
{
    let a = chars_of(left);
    let b = chars_of(right);
    let m = b.len();
    let mut previous: Vec<usize> = Vec::new();
    let mut j: usize = 0;
    while j <= m
        invariant
            m == b@.len(),
            m < usize::MAX,
            j <= m + 1,
            previous@.len() == j,
            forall|k: int| 0 <= k < j ==> previous@[k] == edit_distance(Seq::empty(), b@.take(k)),
        decreases m + 1 - j,
    {
        previous.push(j);
        j += 1;
    }
    let mut current: Vec<usize> = Vec::new();
    let mut k: usize = 0;
    while k <= m
        invariant
            m < usize::MAX,
            k <= m + 1,
            current@.len() == k,
        decreases m + 1 - k,
    {
        current.push(0);
        k += 1;
    }
    let mut i: usize = 0;
    while i < a.len()
        invariant
            m == b@.len(),
            a@ == left@,
            b@ == right@,
            a@.len() + m < usize::MAX,
            i <= a@.len(),
            previous@.len() == m + 1,
            current@.len() == m + 1,
            forall|k: int|
                0 <= k <= m ==> previous@[k] == edit_distance(a@.take(i as int), b@.take(k)),
        decreases a@.len() - i,
    {
        let ghost ai = a@.take(i as int);
        let ghost ai1 = a@.take(i + 1);
        assert(ai1.drop_last() =~= ai);
        assert(ai1.last() == a@[i as int]);
        current.set(0, i + 1);
        assert(b@.take(0) =~= Seq::<char>::empty());
        let mut j: usize = 0;
        while j < m
            invariant
                m == b@.len(),
                a@.len() + m < usize::MAX,
                i < a@.len(),
                ai == a@.take(i as int),
                ai1 == a@.take(i + 1),
                ai1.drop_last() == ai,
                ai1.last() == a@[i as int],
                j <= m,
                previous@.len() == m + 1,
                current@.len() == m + 1,
                forall|k: int| 0 <= k <= m ==> previous@[k] == edit_distance(ai, b@.take(k)),
                forall|k: int| 0 <= k <= j ==> current@[k] == edit_distance(ai1, b@.take(k)),
            decreases m - j,
        {
            let ghost bj1 = b@.take(j + 1);
            proof {
                assert(bj1.drop_last() =~= b@.take(j as int));
                lemma_edit_distance_bound(ai, bj1);
                lemma_edit_distance_bound(ai1, b@.take(j as int));
                lemma_edit_distance_bound(ai, b@.take(j as int));
            }
            let cost: usize = if a[i] != b[j] {
                1
            } else {
                0
            };
            let del = previous[j + 1] + 1;
            let ins = current[j] + 1;
            let sub = previous[j] + cost;
            let best = if del <= ins && del <= sub {
                del
            } else if ins <= sub {
                ins
            } else {
                sub
            };
            current.set(j + 1, best);
            j += 1;
        }
        std::mem::swap(&mut previous, &mut current);
        i += 1;
    }
    assert(a@.take(a@.len() as int) =~= a@);
    assert(b@.take(m as int) =~= b@);
    previous[m]
}

/// The Levenshtein distance between `a` and `b`.
///
/// Trusted: calls `strsim::levenshtein`, documented as "the minimum number
/// of insertions, deletions, and substitutions required to change one
/// string into the other", counted over `char`s.
#[verifier::external_body]
fn strsim_levenshtein(a: &str, b: &str) -> (r: usize)
    ensures
        r == edit_distance(a@, b@),
{
    strsim::levenshtein(a, b)
}

/// How far a suggestion may be from the name written: 2 edits for names
/// of at most 4 bytes, 3 otherwise.
pub open spec fn max_suggestion_distance(name: &str) -> nat {
    if name.len() <= 4 {
        2
    } else {
        3
    }
}

/// Whether candidate `k` is within reach of `name` and no earlier
/// candidate within reach is as close, nor any later one closer.
pub open spec fn is_best_candidate(name: Seq<char>, names: Seq<Seq<char>>, max: nat, k: int) -> bool {
    &&& 0 <= k < names.len()
    &&& edit_distance(name, names[k]) <= max
    &&& forall|i: int|
        0 <= i < names.len() && edit_distance(name, #[trigger] names[i]) <= max ==> (if i < k {
            edit_distance(name, names[i]) > edit_distance(name, names[k])
        } else {
            edit_distance(name, names[i]) >= edit_distance(name, names[k])
        })
}

/// The names of the candidates.
pub open spec fn candidate_names(candidates: Seq<&Symbol>) -> Seq<Seq<char>> {
    candidates.map_values(|s: &Symbol| s.name@)
}

/// The "did you mean" suggestion for `name`: the name of the first
/// candidate at the smallest edit distance, if that distance is within
/// `max_suggestion_distance`.
pub fn suggest_from(name: &str, candidates: &[&Symbol]) -> (r: Option<String>)
    ensures
        match r {
            None => forall|i: int|
                0 <= i < candidates@.len() ==> edit_distance(name@, #[trigger] candidate_names(
                    candidates@,
                )[i]) > max_suggestion_distance(name),
            Some(s) => exists|k: int|
                is_best_candidate(
                    name@,
                    candidate_names(candidates@),
                    max_suggestion_distance(name),
                    k,
                ) && s@ == #[trigger] candidate_names(candidates@)[k],
        },
{
    let max_distance: usize = if name.len() <= 4 {
        2
    } else {
        3
    };
    let ghost names = candidate_names(candidates@);
    let ghost max = max_suggestion_distance(name);
    let mut best: Option<(usize, usize)> = None;
    let mut i: usize = 0;
    while i < candidates.len()
        invariant
            names == candidate_names(candidates@),
            max == max_suggestion_distance(name),
            max_distance == max,
            i <= candidates@.len(),
            names.len() == candidates@.len(),
            match best {
                None => forall|j: int|
                    0 <= j < i ==> edit_distance(name@, #[trigger] names[j]) > max,
                Some((k, d)) => {
                    &&& k < i
                    &&& d == edit_distance(name@, names[k as int])
                    &&& d <= max
                    &&& forall|j: int|
                        0 <= j < i && edit_distance(name@, #[trigger] names[j]) <= max ==> (if j
                            < k {
                            edit_distance(name@, names[j]) > d
                        } else {
                            edit_distance(name@, names[j]) >= d
                        })
                },
            },
        decreases candidates@.len() - i,
    {
        let dist = strsim_levenshtein(name, candidates[i].name.as_str());
        assert(names[i as int] == candidates@[i as int].name@);
        if dist <= max_distance {
            match best {
                None => {
                    best = Some((i, dist));
                },
                Some((_, d)) => {
                    if dist < d {
                        best = Some((i, dist));
                    }
                },
            }
        }
        i += 1;
    }
    match best {
        None => None,
        Some((k, _)) => {
            let s = candidates[k].name.clone();
            assert(is_best_candidate(name@, names, max, k as int));
            Some(s)
        },
    }
}

} // verus!
