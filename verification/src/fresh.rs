use vstd::prelude::*;
use vstd::set_lib::{lemma_int_range, lemma_len_subset, lemma_map_size, set_int_range};

use crate::ids::{ScopeId, Span, SymbolId};
use crate::symbol_table::{spec_find_first, Symbol, SymbolKind, SymbolTable};
use crate::type_display::{append_decimal, decimal, digit_char};

verus! {

/// The `n`-th name tried for a fresh symbol: `name` itself, then
/// `name__1`, `name__2`, and so on.
pub open spec fn fresh_candidate(name: Seq<char>, n: nat) -> Seq<char> {
    if n == 0 {
        name
    } else {
        name + "__"@ + decimal(n)
    }
}

/// Whether the scope whose members are `ids` already has a symbol named
/// `name`.
pub open spec fn name_taken(syms: Seq<Symbol>, ids: Seq<SymbolId>, name: Seq<char>) -> bool {
    spec_find_first(syms, ids, name) is Some
}

proof fn lemma_find_first_some(syms: Seq<Symbol>, ids: Seq<SymbolId>, name: Seq<char>)
    ensures
        (spec_find_first(syms, ids, name) is Some) == exists|i: int|
            0 <= i < ids.len() && #[trigger] syms[ids[i].0 as int].name@ == name,
    decreases ids.len(),
{
    if ids.len() > 0 {
        lemma_find_first_some(syms, ids.drop_first(), name);
        if spec_find_first(syms, ids.drop_first(), name) is Some {
            let i = choose|i: int|
                0 <= i < ids.drop_first().len() && #[trigger] syms[ids.drop_first()[i].0 as int].name@ == name;
            assert(syms[ids[i + 1].0 as int].name@ == name);
        }
        if exists|i: int| 0 <= i < ids.len() && #[trigger] syms[ids[i].0 as int].name@ == name {
            let i = choose|i: int| 0 <= i < ids.len() && #[trigger] syms[ids[i].0 as int].name@ == name;
            if i > 0 {
                assert(syms[ids.drop_first()[i - 1].0 as int].name@ == name);
            }
        }
    }
}

proof fn lemma_decimal_len(n: nat)
    ensures
        decimal(n).len() >= 1,
        n >= 10 ==> decimal(n).len() >= 2,
    decreases n,
{
    if n >= 10 {
        lemma_decimal_len(n / 10);
    }
}

proof fn lemma_digit_char_injective(a: nat, b: nat)
    requires
        a < 10,
        b < 10,
        digit_char(a) == digit_char(b),
    ensures
        a == b,
{
}

/// Different numbers are written differently.
proof fn lemma_decimal_injective(a: nat, b: nat)
    requires
        decimal(a) == decimal(b),
    ensures
        a == b,
    decreases a,
{
    lemma_decimal_len(a);
    lemma_decimal_len(b);
    if a < 10 && b < 10 {
        assert(decimal(a)[0] == digit_char(a));
        assert(decimal(b)[0] == digit_char(b));
        lemma_digit_char_injective(a, b);
    } else if a >= 10 && b >= 10 {
        let da = decimal(a);
        let db = decimal(b);
        assert(da.drop_last() == decimal(a / 10));
        assert(db.drop_last() == decimal(b / 10));
        assert(da.last() == db.last());
        lemma_digit_char_injective(a % 10, b % 10);
        lemma_decimal_injective(a / 10, b / 10);
    }
}

proof fn lemma_candidates_distinct(name: Seq<char>, a: nat, b: nat)
    requires
        a != b,
    ensures
        fresh_candidate(name, a) != fresh_candidate(name, b),
{
    reveal_strlit("__");
    if a == 0 || b == 0 {
        lemma_decimal_len(if a == 0 {
            b
        } else {
            a
        });
        assert(fresh_candidate(name, a).len() != fresh_candidate(name, b).len());
    } else {
        let pa = fresh_candidate(name, a);
        let pb = fresh_candidate(name, b);
        if pa == pb {
            let k = name.len() + 2int;
            assert(pa.skip(k) =~= decimal(a));
            assert(pb.skip(k) =~= decimal(b));
            lemma_decimal_injective(a, b);
        }
    }
}

/// If the first `n + 1` candidates are all taken in a scope, that scope has
/// at least `n + 1` members.
proof fn lemma_taken_bound(syms: Seq<Symbol>, ids: Seq<SymbolId>, name: Seq<char>, n: nat)
    requires
        forall|j: nat| j <= n ==> #[trigger] name_taken(syms, ids, fresh_candidate(name, j)),
    ensures
        n + 1 <= ids.len(),
{
    let x = set_int_range(0, n + 1int);
    let f = |j: int|
        choose|i: int| 0 <= i < ids.len() && #[trigger] syms[ids[i].0 as int].name@ == fresh_candidate(name, j as nat);
    assert forall|j: int| 0 <= j <= n implies {
        0 <= #[trigger] f(j) < ids.len() && syms[ids[f(j)].0 as int].name@ == fresh_candidate(name, j as nat)
    } by {
        assert(name_taken(syms, ids, fresh_candidate(name, j as nat)));
        lemma_find_first_some(syms, ids, fresh_candidate(name, j as nat));
    }
    assert(vstd::relations::injective_on(f, x)) by {
        assert forall|a: int, b: int| x.contains(a) && x.contains(b) && #[trigger] f(a) == #[trigger] f(b) implies a == b by {
            if a != b {
                lemma_candidates_distinct(name, a as nat, b as nat);
            }
        }
    }
    lemma_int_range(0, n + 1int);
    let y = x.map(f);
    lemma_map_size(x, y, f);
    lemma_int_range(0, ids.len() as int);
    assert(y.subset_of(set_int_range(0, ids.len() as int))) by {
        assert forall|i: int| y.contains(i) implies set_int_range(0, ids.len() as int).contains(i) by {
            let j = choose|j: int| x.contains(j) && f(j) == i;
        }
    }
    lemma_len_subset(y, set_int_range(0, ids.len() as int));
}

/// Defines a symbol of kind `kind` in the global scope under the first of
/// `name`, `name__1`, `name__2`, … that the global scope does not have yet.
pub fn fresh_symbol(symbols: &mut SymbolTable, name: &str, kind: SymbolKind, span: Span) -> (r: SymbolId)
    requires
        old(symbols).wf(),
        old(symbols).symbol_seq().len() <= u32::MAX,
        old(symbols).scope_seq()[0].members().len() <= u32::MAX,
    ensures
        final(symbols).wf(),
        exists|k: nat|
            {
                &&& forall|j: nat|
                    j < k ==> #[trigger] name_taken(
                        old(symbols).symbol_seq(),
                        old(symbols).scope_seq()[0].members(),
                        fresh_candidate(name@, j),
                    )
                &&& !name_taken(
                    old(symbols).symbol_seq(),
                    old(symbols).scope_seq()[0].members(),
                    fresh_candidate(name@, k),
                )
                &&& final(symbols).symbol_seq().last().name@ == fresh_candidate(name@, k)
            },
        r.0 == old(symbols).symbol_seq().len(),
        final(symbols).symbol_seq().drop_last() == old(symbols).symbol_seq(),
        final(symbols).symbol_seq().len() == old(symbols).symbol_seq().len() + 1,
        final(symbols).symbol_seq().last().id == r,
        final(symbols).symbol_seq().last().kind == kind,
        final(symbols).symbol_seq().last().span == span,
        final(symbols).symbol_seq().last().scope == ScopeId(0),
        final(symbols).scope_seq().len() == old(symbols).scope_seq().len(),
        final(symbols).scope_seq()[0].members() == old(symbols).scope_seq()[0].members().push(r),
        final(symbols).scope_seq()[0].outer() == old(symbols).scope_seq()[0].outer(),
        forall|i: int|
            1 <= i < old(symbols).scope_seq().len() ==> #[trigger] final(symbols).scope_seq()[i] == old(
                symbols,
            ).scope_seq()[i],
        final(symbols).module_member_map() == old(symbols).module_member_map(),
        final(symbols).associated_member_map() == old(symbols).associated_member_map(),
{
    proof {
        symbols.lemma_global_scope_exists();
    }
    let ghost syms = symbols.symbol_seq();
    let ghost globals = symbols.scope_seq()[0].members();
    let mut candidate = String::from_str(name);
    let mut n: u32 = 0;
    let scope = symbols.global_scope();
    loop
        invariant
            symbols.symbol_seq() == old(symbols).symbol_seq(),
            symbols.scope_seq() == old(symbols).scope_seq(),
            symbols.module_member_map() == old(symbols).module_member_map(),
            symbols.associated_member_map() == old(symbols).associated_member_map(),
            symbols.wf(),
            syms == symbols.symbol_seq(),
            globals == symbols.scope_seq()[0].members(),
            syms.len() <= u32::MAX,
            globals.len() <= u32::MAX,
            scope.0 == 0,
            symbols.scope_seq().len() >= 1,
            n <= globals.len(),
            candidate@ == fresh_candidate(name@, n as nat),
            forall|j: nat| j < n ==> #[trigger] name_taken(syms, globals, fresh_candidate(name@, j)),
        decreases globals.len() - n,
    {
        match symbols.define(scope, candidate.as_str(), kind, span) {
            Ok(id) => {
                return id;
            },
            Err(_) => {
                proof {
                    assert(name_taken(syms, globals, fresh_candidate(name@, n as nat)));
                    lemma_taken_bound(syms, globals, name@, n as nat);
                }
                n = n + 1;
                candidate = String::from_str(name);
                candidate.append("__");
                append_decimal(&mut candidate, n as u64);
            },
        }
    }
}

} // verus!
