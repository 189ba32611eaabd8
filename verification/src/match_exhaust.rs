use vstd::prelude::*;

use crate::ar_type::{ArType, TyView};
use crate::diagnostics::{diag_error, DiagCode, Diagnostic};
use crate::graph::comma_list;
use crate::ids::{Span, SymbolId};
use crate::names::{short_variant_name, variant_short_name};
use crate::symbol_table::{Symbol, SymbolTable};
use crate::text::chars_of;
use crate::type_info::TypeInfo;

verus! {

/// Whether `a` comes strictly before `b` in lexicographic order of their
/// characters.
pub open spec fn lex_lt(a: Seq<char>, b: Seq<char>) -> bool
    decreases a.len(),
{
    if a.len() == 0 {
        b.len() > 0
    } else if b.len() == 0 {
        false
    } else if a[0] != b[0] {
        a[0] < b[0]
    } else {
        lex_lt(a.drop_first(), b.drop_first())
    }
}

/// Each name comes strictly before the next.
pub open spec fn strictly_sorted(names: Seq<Seq<char>>) -> bool {
    forall|i: int, j: int| 0 <= i < j < names.len() ==> lex_lt(#[trigger] names[i], #[trigger] names[j])
}

proof fn lemma_lex_irreflexive(a: Seq<char>)
    ensures
        !lex_lt(a, a),
    decreases a.len(),
{
    if a.len() > 0 {
        lemma_lex_irreflexive(a.drop_first());
    }
}

proof fn lemma_lex_total(a: Seq<char>, b: Seq<char>)
    ensures
        a == b || lex_lt(a, b) || lex_lt(b, a),
    decreases a.len(),
{
    if a.len() > 0 && b.len() > 0 && a[0] == b[0] {
        lemma_lex_total(a.drop_first(), b.drop_first());
        if a.drop_first() == b.drop_first() {
            assert(a =~= seq![a[0]] + a.drop_first());
            assert(b =~= seq![b[0]] + b.drop_first());
        }
    } else if a.len() > 0 && b.len() > 0 {
    } else if a.len() == 0 && b.len() == 0 {
        assert(a =~= b);
    }
}

proof fn lemma_lex_asymmetric(a: Seq<char>, b: Seq<char>)
    ensures
        !(lex_lt(a, b) && lex_lt(b, a)),
    decreases a.len(),
{
    if a.len() > 0 && b.len() > 0 && a[0] == b[0] {
        lemma_lex_asymmetric(a.drop_first(), b.drop_first());
    }
}

proof fn lemma_lex_transitive(a: Seq<char>, b: Seq<char>, c: Seq<char>)
    requires
        lex_lt(a, b),
        lex_lt(b, c),
    ensures
        lex_lt(a, c),
    decreases a.len(),
{
    if a.len() > 0 && b.len() > 0 && c.len() > 0 && a[0] == b[0] && b[0] == c[0] {
        lemma_lex_transitive(a.drop_first(), b.drop_first(), c.drop_first());
    }
}

/// Where `a` comes in relation to `b`: negative before, zero equal,
/// positive after.
fn lex_order(a: &Vec<char>, b: &Vec<char>) -> (r: i8)
    ensures
        (r < 0) == lex_lt(a@, b@),
        (r == 0) == (a@ == b@),
        (r > 0) == lex_lt(b@, a@),
{
    let mut i: usize = 0;
    assert(a@.skip(0) =~= a@);
    assert(b@.skip(0) =~= b@);
    while i < a.len() && i < b.len() && a[i] == b[i]
        invariant
            i <= a@.len(),
            i <= b@.len(),
            a@.take(i as int) == b@.take(i as int),
            lex_lt(a@, b@) == lex_lt(a@.skip(i as int), b@.skip(i as int)),
            lex_lt(b@, a@) == lex_lt(b@.skip(i as int), a@.skip(i as int)),
        decreases a@.len() - i,
    {
        assert(a@.skip(i as int).drop_first() =~= a@.skip(i + 1));
        assert(b@.skip(i as int).drop_first() =~= b@.skip(i + 1));
        assert(a@.take(i + 1) =~= a@.take(i as int).push(a@[i as int]));
        assert(b@.take(i + 1) =~= b@.take(i as int).push(b@[i as int]));
        i += 1;
    }
    proof {
        lemma_lex_irreflexive(a@);
        lemma_lex_asymmetric(a@, b@);
    }
    let ghost sa = a@.skip(i as int);
    let ghost sb = b@.skip(i as int);
    if i == a.len() && i == b.len() {
        assert(a@ =~= a@.take(i as int));
        assert(b@ =~= b@.take(i as int));
        0
    } else if i == a.len() {
        assert(sa.len() == 0 && sb.len() > 0);
        assert(a@ != b@);
        -1
    } else if i == b.len() {
        assert(sb.len() == 0 && sa.len() > 0);
        assert(a@ != b@);
        1
    } else {
        assert(sa[0] == a@[i as int] && sb[0] == b@[i as int]);
        assert(a@ != b@);
        if a[i] < b[i] {
            -1
        } else {
            1
        }
    }
}

/// The characters of each string.
pub open spec fn string_views(v: Seq<String>) -> Seq<Seq<char>> {
    v.map_values(|s: String| s@)
}

/// Two strictly sorted lists of the same names are the same list.
pub proof fn lemma_sorted_unique(a: Seq<Seq<char>>, b: Seq<Seq<char>>)
    requires
        strictly_sorted(a),
        strictly_sorted(b),
        a.to_set() == b.to_set(),
    ensures
        a == b,
    decreases a.len(),
{
    if a.len() == 0 {
        if b.len() > 0 {
            assert(b.to_set().contains(b[0]));
        }
        assert(a =~= b);
    } else if b.len() == 0 {
        assert(a.to_set().contains(a[0]));
    } else {
        assert(b.to_set().contains(a[0]));
        assert(a.to_set().contains(b[0]));
        let ia = choose|i: int| 0 <= i < b.len() && b[i] == a[0];
        let ib = choose|i: int| 0 <= i < a.len() && a[i] == b[0];
        if a[0] != b[0] {
            assert(ia > 0 && ib > 0);
            assert(lex_lt(b[0], b[ia]));
            assert(lex_lt(a[0], a[ib]));
            lemma_lex_asymmetric(a[0], b[0]);
        }
        let ra = a.drop_first();
        let rb = b.drop_first();
        assert forall|x: Seq<char>| ra.to_set().contains(x) <==> rb.to_set().contains(x) by {
            if ra.to_set().contains(x) {
                let i = choose|i: int| 0 <= i < ra.len() && ra[i] == x;
                assert(a[i + 1] == x);
                assert(lex_lt(a[0], a[i + 1]));
                lemma_lex_irreflexive(x);
                assert(b.to_set().contains(x));
                let j = choose|j: int| 0 <= j < b.len() && b[j] == x;
                assert(j != 0);
                assert(rb[j - 1] == x);
            }
            if rb.to_set().contains(x) {
                let i = choose|i: int| 0 <= i < rb.len() && rb[i] == x;
                assert(b[i + 1] == x);
                assert(lex_lt(b[0], b[i + 1]));
                lemma_lex_irreflexive(x);
                assert(a.to_set().contains(x));
                let j = choose|j: int| 0 <= j < a.len() && a[j] == x;
                assert(j != 0);
                assert(ra[j - 1] == x);
            }
        }
        assert(ra.to_set() =~= rb.to_set());
        assert forall|i: int, j: int| 0 <= i < j < ra.len() implies lex_lt(#[trigger] ra[i], #[trigger] ra[j]) by {
            assert(ra[i] == a[i + 1] && ra[j] == a[j + 1]);
        }
        assert forall|i: int, j: int| 0 <= i < j < rb.len() implies lex_lt(#[trigger] rb[i], #[trigger] rb[j]) by {
            assert(rb[i] == b[i + 1] && rb[j] == b[j + 1]);
        }
        lemma_sorted_unique(ra, rb);
        assert(a =~= seq![a[0]] + ra);
        assert(b =~= seq![b[0]] + rb);
    }
}

/// Adds `name` to the strictly sorted list `names`, where it is not there
/// already.
fn insert_sorted(names: &mut Vec<String>, name: String)
    requires
        strictly_sorted(string_views(old(names)@)),
    ensures
        strictly_sorted(string_views(final(names)@)),
        string_views(final(names)@).to_set() == string_views(old(names)@).to_set().insert(name@),
{
    let ghost old_v = string_views(names@);
    let key = chars_of(name.as_str());
    let mut i: usize = 0;
    while i < names.len()
        invariant
            names@ == old(names)@,
            old_v == string_views(names@),
            key@ == name@,
            i <= names@.len(),
            strictly_sorted(old_v),
            forall|k: int| 0 <= k < i ==> lex_lt(#[trigger] old_v[k], name@),
        ensures
            i <= names@.len(),
            names@ == old(names)@,
            i == names@.len() || lex_lt(name@, old_v[i as int]),
            forall|k: int| 0 <= k < i ==> lex_lt(#[trigger] old_v[k], name@),
        decreases names@.len() - i,
    {
        let here = chars_of(names[i].as_str());
        assert(here@ == old_v[i as int]);
        let o = lex_order(&here, &key);
        if o == 0 {
            assert(old_v.to_set().contains(name@));
            assert(old_v.to_set().insert(name@) =~= old_v.to_set());
            return;
        }
        if o > 0 {
            break;
        }
        i += 1;
    }
    names.insert(i, name);
    let ghost new_v = string_views(names@);
    proof {
        assert(new_v =~= old_v.insert(i as int, name@));
        assert forall|k: int| i <= k < old_v.len() implies lex_lt(name@, #[trigger] old_v[k]) by {
            if k > i {
                lemma_lex_transitive(name@, old_v[i as int], old_v[k]);
            }
        }
        assert forall|a: int, b: int| 0 <= a < b < new_v.len() implies lex_lt(#[trigger] new_v[a], #[trigger] new_v[b]) by {
            if a < i && b < i {
            } else if a < i && b == i {
            } else if a < i && b > i {
                lemma_lex_transitive(old_v[a], name@, old_v[b - 1]);
            } else if a == i {
            } else {
                assert(new_v[a] == old_v[a - 1] && new_v[b] == old_v[b - 1]);
            }
        }
        assert forall|x: Seq<char>| new_v.to_set().contains(x) <==> old_v.to_set().insert(name@).contains(x) by {
            if new_v.to_set().contains(x) {
                let k = choose|k: int| 0 <= k < new_v.len() && new_v[k] == x;
                if k < i {
                    assert(old_v[k] == x);
                } else if k > i {
                    assert(old_v[k - 1] == x);
                }
            }
            if old_v.to_set().contains(x) {
                let k = choose|k: int| 0 <= k < old_v.len() && old_v[k] == x;
                if k < i {
                    assert(new_v[k] == x);
                } else {
                    assert(new_v[k + 1] == x);
                }
            }
            if x == name@ {
                assert(new_v[i as int] == x);
            }
        }
        assert(new_v.to_set() =~= old_v.to_set().insert(name@));
    }
}


/// The pattern of a match arm, as far as exhaustiveness goes.
#[derive(Debug, Clone, PartialEq, Eq)]
pub enum MatchPattern {
    /// `_`
    Wildcard,
    /// A name that binds any value.
    Bind,
    /// An enum variant, by its short name.
    Enum { variant: String },
    /// A variant written as a type-like tuple, by a possibly qualified name.
    TypeTuple { name: String },
    /// Any other pattern.
    Other,
}

/// What follows the last `.` of `s`, or all of `s` where it has none.
pub open spec fn after_last_dot(s: Seq<char>) -> Seq<char>
    decreases s.len(),
{
    if s.len() == 0 {
        s
    } else if s.last() == '.' {
        Seq::empty()
    } else {
        after_last_dot(s.drop_last()).push(s.last())
    }
}

/// Whether a pattern matches every value.
pub open spec fn covers_all(p: MatchPattern) -> bool {
    p is Wildcard || p is Bind
}

/// The short name of the variant a pattern names, if it names one.
pub open spec fn pattern_name(p: MatchPattern) -> Option<Seq<char>> {
    match p {
        MatchPattern::Enum { variant } => Some(variant@),
        MatchPattern::TypeTuple { name } => Some(after_last_dot(name@)),
        _ => None,
    }
}

/// The short names of the variants of enum `enum_id` in the table of
/// variants `table`, which gives each variant's enum.
pub open spec fn enum_variant_names(
    syms: Seq<Symbol>,
    table: Map<SymbolId, (SymbolId, Option<Seq<TyView>>)>,
    enum_id: SymbolId,
) -> Set<Seq<char>> {
    Set::new(
        |n: Seq<char>|
            exists|v: SymbolId|
                #[trigger] table.contains_key(v) && table[v].0 == enum_id && n == short_variant_name(
                    syms[enum_id.0 as int].name@,
                    syms[v.0 as int].name@,
                ),
    )
}

/// The variant names the arms name.
pub open spec fn covered_names(arms: Seq<MatchPattern>) -> Set<Seq<char>> {
    Set::new(|n: Seq<char>| exists|i: int| 0 <= i < arms.len() && pattern_name(#[trigger] arms[i]) == Some(n))
}

/// The variants of `enum_id` that no arm names.
pub open spec fn missing_variants(
    syms: Seq<Symbol>,
    table: Map<SymbolId, (SymbolId, Option<Seq<TyView>>)>,
    enum_id: SymbolId,
    arms: Seq<MatchPattern>,
) -> Set<Seq<char>> {
    enum_variant_names(syms, table, enum_id).difference(covered_names(arms))
}

/// The message listing the missing variants `names`.
pub open spec fn non_exhaustive_message(names: Seq<Seq<char>>) -> Seq<char> {
    "non-exhaustive match: missing variant(s): "@ + comma_list(names)
}

/// Whether a match over a value of type `t` with these arms leaves a
/// variant of its enum unhandled: no arm matches everything and some
/// variant is named by no arm.
pub open spec fn leaves_variant_out(
    syms: Seq<Symbol>,
    table: Map<SymbolId, (SymbolId, Option<Seq<TyView>>)>,
    t: TyView,
    arms: Seq<MatchPattern>,
) -> bool {
    match t {
        TyView::Named(id, _) => {
            &&& !(exists|i: int| 0 <= i < arms.len() && covers_all(#[trigger] arms[i]))
            &&& exists|n: Seq<char>| #[trigger] missing_variants(syms, table, id, arms).contains(n)
        },
        _ => false,
    }
}

/// The short name of the variant a pattern names; see `pattern_name`.
fn pattern_variant_short_name(pat: &MatchPattern) -> (r: Option<String>)
    ensures
        r matches Some(s) ==> pattern_name(*pat) == Some(s@),
        r is None ==> pattern_name(*pat) is None,
{
    match pat {
        MatchPattern::Enum { variant } => Some(variant.clone()),
        MatchPattern::TypeTuple { name } => {
            let chars = chars_of(name.as_str());
            let n = chars.len();
            let mut k: usize = n;
            assert(chars@.take(n as int) =~= chars@);
            assert(chars@.skip(n as int) =~= Seq::<char>::empty());
            assert(after_last_dot(chars@) + Seq::<char>::empty() =~= after_last_dot(chars@));
            while k > 0 && chars[k - 1] != '.'
                invariant
                    k <= n,
                    n == chars@.len(),
                    chars@ == name@,
                    after_last_dot(name@) == after_last_dot(chars@.take(k as int)) + chars@.skip(k as int),
                decreases k,
            {
                let ghost t = chars@.take(k as int);
                assert(t.drop_last() =~= chars@.take(k - 1));
                assert(chars@.skip(k - 1) =~= seq![t.last()] + chars@.skip(k as int));
                k -= 1;
            }
            proof {
                let t = chars@.take(k as int);
                if k > 0 {
                    assert(t.last() == '.');
                } else {
                    assert(t =~= Seq::<char>::empty());
                }
                assert(after_last_dot(t) =~= Seq::<char>::empty());
                assert(after_last_dot(name@) =~= name@.skip(k as int));
            }
            Some(String::from_str(name.as_str().substring_char(k, n)))
        },
        _ => None,
    }
}


/// The names joined by `", "`.
fn join_names(names: &Vec<String>) -> (r: String)
    ensures
        r@ == comma_list(string_views(names@)),
{
    let ghost v = string_views(names@);
    let mut out = String::new();
    let mut k: usize = 0;
    assert(v.take(0) =~= Seq::<Seq<char>>::empty());
    while k < names.len()
        invariant
            v == string_views(names@),
            k <= names@.len(),
            out@ == comma_list(v.take(k as int)),
        decreases names@.len() - k,
    {
        assert(v.take(k + 1).drop_last() =~= v.take(k as int));
        if k > 0 {
            out.append(", ");
        }
        out.append(names[k].as_str());
        proof {
            if k == 0 {
                assert(v[0] == names@[0]@);
                assert(out@ =~= v.take(1)[0]);
            } else {
                reveal_strlit(", ");
                assert(v[k as int] == names@[k as int]@);
                assert(out@ =~= comma_list(v.take(k as int)) + seq![',', ' '] + v.take(k + 1).last());
            }
        }
        k += 1;
    }
    assert(v.take(names@.len() as int) =~= v);
    out
}

/// Whether `name` is one of `names`.
fn contains_name(names: &Vec<String>, name: &String) -> (r: bool)
    ensures
        r == string_views(names@).contains(name@),
{
    let key = chars_of(name.as_str());
    let mut i: usize = 0;
    while i < names.len()
        invariant
            key@ == name@,
            i <= names@.len(),
            forall|k: int| 0 <= k < i ==> names@[k]@ != name@,
        decreases names@.len() - i,
    {
        let here = chars_of(names[i].as_str());
        if lex_order(&here, &key) == 0 {
            assert(string_views(names@)[i as int] == name@);
            return true;
        }
        i += 1;
    }
    assert forall|k: int| 0 <= k < names@.len() implies string_views(names@)[k] != name@ by {
        assert(names@[k]@ != name@);
    }
    false
}

/// Reports a match over a value of type `value_ty` that leaves a variant
/// of its enum unhandled: a non-exhaustive-match error at `match_span`
/// that lists the missing variants in sorted order. The variants of the
/// enum are those `type_info` records for it.
pub fn check_match_exhaustiveness(
    diagnostics: &mut Vec<Diagnostic>,
    symbols: &SymbolTable,
    type_info: &TypeInfo,
    value_ty: &ArType,
    arms: &Vec<MatchPattern>,
    match_span: Span,
)
    requires
        forall|v: SymbolId|
            #[trigger] type_info.enum_variant_table().contains_key(v) ==> v.0 < symbols.symbol_seq().len(),
        value_ty@ matches TyView::Named(id, _) ==> id.0 < symbols.symbol_seq().len(),
    ensures
        !leaves_variant_out(symbols.symbol_seq(), type_info.enum_variant_table(), value_ty@, arms@) ==> final(diagnostics)@
            == old(diagnostics)@,
        leaves_variant_out(symbols.symbol_seq(), type_info.enum_variant_table(), value_ty@, arms@) ==> {
            &&& final(diagnostics)@.len() == old(diagnostics)@.len() + 1
            &&& final(diagnostics)@.take(old(diagnostics)@.len() as int) == old(diagnostics)@
            &&& exists|names: Seq<Seq<char>>|
                {
                    &&& strictly_sorted(names)
                    &&& #[trigger] names.to_set() == missing_variants(
                        symbols.symbol_seq(),
                        type_info.enum_variant_table(),
                        value_ty@->Named_0,
                        arms@,
                    )
                    &&& final(diagnostics)@.last()@ == diag_error(
                        DiagCode::T024NonExhaustiveMatch,
                        non_exhaustive_message(names),
                        match_span,
                    )
                }
        },
{
    let ghost syms = symbols.symbol_seq();
    let enum_id = match value_ty {
        ArType::Named(id, _) => *id,
        _ => {
            return;
        },
    };
    if value_ty.is_error() {
        return;
    }
    let ghost arms_v = arms@;
    let ghost table = type_info.enum_variant_table();
    let ghost missing = missing_variants(syms, table, enum_id, arms_v);
    let mut covers: bool = false;
    let mut covered: Vec<String> = Vec::new();
    let mut i: usize = 0;
    while i < arms.len()
        invariant
            arms_v == arms@,
            i <= arms@.len(),
            covers == exists|k: int| 0 <= k < i && covers_all(#[trigger] arms_v[k]),
            forall|n: Seq<char>|
                string_views(covered@).contains(n) <==> exists|k: int|
                    0 <= k < i && pattern_name(#[trigger] arms_v[k]) == Some(n),
        decreases arms@.len() - i,
    {
        let ghost before = string_views(covered@);
        match &arms[i] {
            MatchPattern::Wildcard | MatchPattern::Bind => {
                covers = true;
            },
            _ => {},
        }
        match pattern_variant_short_name(&arms[i]) {
            Some(name) => {
                covered.push(name);
                proof {
                    assert(string_views(covered@) =~= before.push(name@));
                }
            },
            None => {},
        }
        proof {
            let now = string_views(covered@);
            assert forall|n: Seq<char>| now.contains(n) <==> exists|k: int|
                0 <= k < i + 1 && pattern_name(#[trigger] arms_v[k]) == Some(n) by {
                if now.contains(n) {
                    let j = choose|j: int| 0 <= j < now.len() && now[j] == n;
                    if j < before.len() {
                        assert(before[j] == n);
                        assert(before.contains(n));
                        let k = choose|k: int| 0 <= k < i && pattern_name(#[trigger] arms_v[k]) == Some(n);
                        assert(pattern_name(arms_v[k]) == Some(n));
                    } else {
                        assert(pattern_name(arms_v[i as int]) == Some(n));
                    }
                }
                if exists|k: int| 0 <= k < i + 1 && pattern_name(#[trigger] arms_v[k]) == Some(n) {
                    let k = choose|k: int| 0 <= k < i + 1 && pattern_name(#[trigger] arms_v[k]) == Some(n);
                    if k < i {
                        assert(exists|kk: int| 0 <= kk < i && pattern_name(#[trigger] arms_v[kk]) == Some(n));
                        assert(before.contains(n));
                        let j = choose|j: int| 0 <= j < before.len() && before[j] == n;
                        assert(now[j] == n);
                    } else {
                        assert(now[now.len() - 1] == n);
                    }
                }
            }
            if covers_all(arms_v[i as int]) {
                assert(covers);
            }
        }
        i += 1;
    }
    let enum_name = &symbols.get(enum_id).name;
    let enum_variants = type_info.enum_variant_entries();
    let ghost entries = enum_variants@;
    assert forall|k: int| 0 <= k < entries.len() implies (#[trigger] entries[k]).0.0 < syms.len() by {
        assert(table.contains_key(entries[k].0));
    }
    let mut missing_names: Vec<String> = Vec::new();
    let mut j: usize = 0;
    assert(string_views(missing_names@).to_set() =~= Set::<Seq<char>>::empty());
    while j < enum_variants.len()
        invariant
            syms == symbols.symbol_seq(),
            entries == enum_variants@,
            enum_id.0 < syms.len(),
            *enum_name == syms[enum_id.0 as int].name,
            forall|k: int| 0 <= k < entries.len() ==> (#[trigger] entries[k]).0.0 < syms.len(),
            j <= entries.len(),
            forall|n: Seq<char>|
                string_views(covered@).contains(n) <==> exists|k: int|
                    0 <= k < arms_v.len() && pattern_name(#[trigger] arms_v[k]) == Some(n),
            strictly_sorted(string_views(missing_names@)),
            forall|n: Seq<char>|
                #[trigger] string_views(missing_names@).to_set().contains(n) <==> (!string_views(covered@).contains(n)
                    && exists|k: int|
                    0 <= k < j && (#[trigger] entries[k]).1 == enum_id && n == short_variant_name(
                        syms[enum_id.0 as int].name@,
                        syms[entries[k].0.0 as int].name@,
                    )),
        decreases entries.len() - j,
    {
        let (variant_id, parent) = enum_variants[j];
        let ghost before = string_views(missing_names@).to_set();
        let ghost cov = string_views(covered@);
        let ghost short = short_variant_name(syms[enum_id.0 as int].name@, syms[variant_id.0 as int].name@);
        assert(entries[j as int] == (variant_id, parent));
        let mut added: bool = false;
        if parent == enum_id {
            let name = variant_short_name(enum_name.as_str(), symbols.get(variant_id).name.as_str());
            if !contains_name(&covered, &name) {
                insert_sorted(&mut missing_names, name);
                added = true;
            }
        }
        proof {
            let now = string_views(missing_names@).to_set();
            if added {
                assert(now == before.insert(short));
            } else {
                assert(now == before);
            }
            assert forall|n: Seq<char>| now.contains(n) <==> (!cov.contains(n)
                && exists|k: int|
                0 <= k < j + 1 && (#[trigger] entries[k]).1 == enum_id && n == short_variant_name(
                    syms[enum_id.0 as int].name@,
                    syms[entries[k].0.0 as int].name@,
                )) by {
                let old_side = exists|k: int|
                    0 <= k < j && (#[trigger] entries[k]).1 == enum_id && n == short_variant_name(
                        syms[enum_id.0 as int].name@,
                        syms[entries[k].0.0 as int].name@,
                    );
                assert(before.contains(n) == (!cov.contains(n) && old_side));
                if exists|k: int|
                    0 <= k < j + 1 && (#[trigger] entries[k]).1 == enum_id && n == short_variant_name(
                        syms[enum_id.0 as int].name@,
                        syms[entries[k].0.0 as int].name@,
                    ) {
                    let k = choose|k: int|
                        0 <= k < j + 1 && (#[trigger] entries[k]).1 == enum_id && n == short_variant_name(
                            syms[enum_id.0 as int].name@,
                            syms[entries[k].0.0 as int].name@,
                        );
                    if k == j {
                        assert(parent == enum_id && n == short);
                    } else {
                        assert(old_side);
                    }
                }
                if old_side {
                    let k = choose|k: int|
                        0 <= k < j && (#[trigger] entries[k]).1 == enum_id && n == short_variant_name(
                            syms[enum_id.0 as int].name@,
                            syms[entries[k].0.0 as int].name@,
                        );
                    assert(0 <= k < j + 1 && entries[k].1 == enum_id);
                }
                if parent == enum_id && n == short {
                    assert(entries[j as int].1 == enum_id);
                }
            }
        }
        j += 1;
    }
    proof {
        let cov = string_views(covered@);
        assert forall|n: Seq<char>| cov.contains(n) == covered_names(arms_v).contains(n) by {}
        let from_entries = Set::new(
            |n: Seq<char>|
                exists|k: int|
                    0 <= k < entries.len() && (#[trigger] entries[k]).1 == enum_id && n == short_variant_name(
                        syms[enum_id.0 as int].name@,
                        syms[entries[k].0.0 as int].name@,
                    ),
        );
        assert forall|n: Seq<char>| from_entries.contains(n) == enum_variant_names(syms, table, enum_id).contains(n) by {
            if from_entries.contains(n) {
                let k = choose|k: int|
                    0 <= k < entries.len() && (#[trigger] entries[k]).1 == enum_id && n == short_variant_name(
                        syms[enum_id.0 as int].name@,
                        syms[entries[k].0.0 as int].name@,
                    );
                assert(table.contains_key(entries[k].0));
            }
            if enum_variant_names(syms, table, enum_id).contains(n) {
                let v = choose|v: SymbolId|
                    #[trigger] table.contains_key(v) && table[v].0 == enum_id && n == short_variant_name(
                        syms[enum_id.0 as int].name@,
                        syms[v.0 as int].name@,
                    );
                let k = choose|k: int| 0 <= k < entries.len() && #[trigger] entries[k].0 == v;
                assert(entries[k].1 == enum_id);
            }
        }
        assert forall|n: Seq<char>| string_views(missing_names@).to_set().contains(n) == missing.contains(n) by {
            assert(cov.contains(n) == covered_names(arms_v).contains(n));
        }
        assert(string_views(missing_names@).to_set() =~= missing);
    }
    if covers || missing_names.len() == 0 {
        proof {
            if !covers {
                assert forall|n: Seq<char>| !#[trigger] missing.contains(n) by {
                    if missing.contains(n) {
                        assert(string_views(missing_names@).to_set().contains(n));
                    }
                }
            }
        }
        return;
    }
    proof {
        let n0 = string_views(missing_names@)[0];
        assert(string_views(missing_names@).to_set().contains(n0));
        assert(missing.contains(n0));
    }
    let mut message = String::from_str("non-exhaustive match: missing variant(s): ");
    let joined = join_names(&missing_names);
    message.append(joined.as_str());
    let ghost old_d = diagnostics@;
    diagnostics.push(Diagnostic::error(DiagCode::T024NonExhaustiveMatch, message, match_span));
    assert(diagnostics@.take(old_d.len() as int) =~= old_d);
    assert(string_views(missing_names@).to_set() == missing);
}


} // verus!
