use vstd::prelude::*;

use crate::ar_type::{tys_view, ArType, TyView};
use crate::ids::SymbolId;

verus! {

/// The type most recently bound to `sym` in `bindings`, if any.
pub open spec fn spec_lookup(bindings: Seq<(SymbolId, TyView)>, sym: SymbolId) -> Option<TyView>
    decreases bindings.len(),
{
    if bindings.len() == 0 {
        None
    } else if bindings.last().0 == sym {
        Some(bindings.last().1)
    } else {
        spec_lookup(bindings.drop_last(), sym)
    }
}

/// The loop depth after entering (`true`) or leaving (`false`) a loop at
/// depth `d`; leaving never goes below zero.
pub open spec fn loop_step(d: nat, enter: bool) -> nat {
    if enter {
        d + 1
    } else if d > 0 {
        (d - 1) as nat
    } else {
        0
    }
}

/// The loop depth after the loop entries and exits of `events`, in order,
/// starting at depth `d`.
pub open spec fn depth_after(d: nat, events: Seq<bool>) -> nat
    decreases events.len(),
{
    if events.len() == 0 {
        d
    } else {
        loop_step(depth_after(d, events.drop_last()), events.last())
    }
}

/// Typing context accumulated while walking a function: the type bound to
/// each symbol, the stack of expected return types, and the loop depth.
#[derive(Debug, Clone)]
pub struct TyCtx {
    bindings: Vec<(SymbolId, ArType)>,
    return_stack: Vec<ArType>,
    loop_depth: u32,
}

impl TyCtx {
    /// The bindings, oldest first.
    pub closed spec fn binding_seq(&self) -> Seq<(SymbolId, TyView)> {
        self.bindings@.map_values(|b: (SymbolId, ArType)| (b.0, b.1@))
    }

    /// The expected return types, innermost last.
    pub closed spec fn return_seq(&self) -> Seq<TyView> {
        tys_view(self.return_stack@)
    }

    /// The number of enclosing loops.
    pub closed spec fn depth(&self) -> nat {
        self.loop_depth as nat
    }

    pub fn new() -> (r: TyCtx)
        ensures
            r.binding_seq() == Seq::<(SymbolId, TyView)>::empty(),
            r.return_seq() == Seq::<TyView>::empty(),
            r.depth() == 0,
    {
        let r = TyCtx { bindings: Vec::new(), return_stack: Vec::new(), loop_depth: 0 };
        assert(r.binding_seq() =~= Seq::<(SymbolId, TyView)>::empty());
        assert(r.return_seq() =~= Seq::<TyView>::empty());
        r
    }

    /// Records that `symbol` has type `ty`.
    pub fn bind(&mut self, symbol: SymbolId, ty: ArType)
        ensures
            final(self).binding_seq() == old(self).binding_seq().push((symbol, ty@)),
            final(self).return_seq() == old(self).return_seq(),
            final(self).depth() == old(self).depth(),
    {
        self.bindings.push((symbol, ty));
        assert(self.binding_seq() =~= old(self).binding_seq().push((symbol, ty@)));
    }

    /// The type most recently bound to `symbol`; later bindings shadow
    /// earlier ones.
    pub fn lookup(&self, symbol: SymbolId) -> (r: Option<&ArType>)
        ensures
            match r {
                Some(t) => spec_lookup(self.binding_seq(), symbol) == Some(t@),
                None => spec_lookup(self.binding_seq(), symbol) is None,
            },
    {
        let ghost bs = self.binding_seq();
        let mut i: usize = self.bindings.len();
        assert(bs.subrange(0, i as int) =~= bs);
        while i > 0
            invariant
                i <= self.bindings.len(),
                bs == self.binding_seq(),
                bs.len() == self.bindings.len(),
                spec_lookup(bs, symbol) == spec_lookup(bs.subrange(0, i as int), symbol),
            decreases i,
        {
            let ghost prefix = bs.subrange(0, i as int);
            assert(prefix.last() == bs[i - 1]);
            assert(prefix.drop_last() =~= bs.subrange(0, i - 1));
            if self.bindings[i - 1].0 == symbol {
                return Some(&self.bindings[i - 1].1);
            }
            i -= 1;
        }
        None
    }

    /// Pushes the return type expected by the function being entered.
    pub fn push_return(&mut self, ty: ArType)
        ensures
            final(self).return_seq() == old(self).return_seq().push(ty@),
            final(self).binding_seq() == old(self).binding_seq(),
            final(self).depth() == old(self).depth(),
    {
        self.return_stack.push(ty);
        assert(self.return_seq() =~= old(self).return_seq().push(ty@));
    }

    /// Pops the return type of the function being left; nothing happens
    /// when the stack is empty.
    pub fn pop_return(&mut self)
        ensures
            final(self).return_seq() == (if old(self).return_seq().len() > 0 {
                old(self).return_seq().drop_last()
            } else {
                old(self).return_seq()
            }),
            final(self).binding_seq() == old(self).binding_seq(),
            final(self).depth() == old(self).depth(),
    {
        let _ = self.return_stack.pop();
        assert(self.return_seq() =~= (if old(self).return_seq().len() > 0 {
            old(self).return_seq().drop_last()
        } else {
            old(self).return_seq()
        }));
    }

    /// The return type expected by the innermost function.
    pub fn current_return(&self) -> (r: Option<&ArType>)
        ensures
            match r {
                Some(t) => self.return_seq().len() > 0 && t@ == self.return_seq().last(),
                None => self.return_seq().len() == 0,
            },
    {
        if self.return_stack.len() == 0 {
            None
        } else {
            Some(&self.return_stack[self.return_stack.len() - 1])
        }
    }

    /// Enters a loop.
    pub fn enter_loop(&mut self)
        requires
            old(self).depth() < u32::MAX,
        ensures
            final(self).depth() == old(self).depth() + 1,
            final(self).depth() == loop_step(old(self).depth(), true),
            final(self).binding_seq() == old(self).binding_seq(),
            final(self).return_seq() == old(self).return_seq(),
    {
        self.loop_depth += 1;
    }

    /// Leaves a loop; the depth does not go below zero.
    pub fn exit_loop(&mut self)
        ensures
            final(self).depth() == (if old(self).depth() > 0 {
                (old(self).depth() - 1) as nat
            } else {
                0
            }),
            final(self).depth() == loop_step(old(self).depth(), false),
            final(self).binding_seq() == old(self).binding_seq(),
            final(self).return_seq() == old(self).return_seq(),
    {
        if self.loop_depth > 0 {
            self.loop_depth -= 1;
        }
    }

    /// Whether some loop encloses the current point.
    pub fn is_in_loop(&self) -> (r: bool)
        ensures
            r == (self.depth() > 0),
    {
        self.loop_depth > 0
    }
}

/// A lookup right after a binding finds that binding, and a binding for
/// one symbol leaves the lookup of every other symbol unchanged.
pub proof fn lemma_lookup_after_bind(
    bindings: Seq<(SymbolId, TyView)>,
    symbol: SymbolId,
    ty: TyView,
    other: SymbolId,
)
    ensures
        spec_lookup(bindings.push((symbol, ty)), symbol) == Some(ty),
        other != symbol ==> spec_lookup(bindings.push((symbol, ty)), other) == spec_lookup(
            bindings,
            other,
        ),
{
    assert(bindings.push((symbol, ty)).drop_last() =~= bindings);
}

/// Leaving a function restores the return stack that entering it found.
pub proof fn lemma_pop_undoes_push(stack: Seq<TyView>, ty: TyView)
    ensures
        stack.push(ty).len() > 0,
        stack.push(ty).drop_last() == stack,
        stack.push(ty).last() == ty,
{
    assert(stack.push(ty).drop_last() =~= stack);
}

impl Default for TyCtx {
    fn default() -> (r: Self)
        ensures
            r.binding_seq() == Seq::<(SymbolId, TyView)>::empty(),
            r.return_seq() == Seq::<TyView>::empty(),
            r.depth() == 0,
    {
        TyCtx::new()
    }
}

/// After bindings that do not mention `symbol`, a lookup of `symbol`
/// still finds its latest binding.
pub proof fn lemma_lookup_latest(
    bindings: Seq<(SymbolId, TyView)>,
    symbol: SymbolId,
    ty: TyView,
    later: Seq<(SymbolId, TyView)>,
)
    requires
        forall|i: int| 0 <= i < later.len() ==> (#[trigger] later[i]).0 != symbol,
    ensures
        spec_lookup(bindings.push((symbol, ty)) + later, symbol) == Some(ty),
    decreases later.len(),
{
    let all = bindings.push((symbol, ty)) + later;
    if later.len() == 0 {
        assert(all =~= bindings.push((symbol, ty)));
    } else {
        assert(all.drop_last() =~= bindings.push((symbol, ty)) + later.drop_last());
        assert(all.last() == later[later.len() - 1]);
        assert forall|i: int| 0 <= i < later.drop_last().len() implies (#[trigger] later.drop_last()[i]).0 != symbol by {
            assert(later.drop_last()[i] == later[i]);
        }
        lemma_lookup_latest(bindings, symbol, ty, later.drop_last());
    }
}

/// Starting outside any loop, `n` loop entries followed by `m` exits leave
/// the depth at `n - m`, or at zero when there were more exits.
pub proof fn lemma_loop_depth_count(n: nat, m: nat)
    ensures
        depth_after(0, Seq::new(n, |i: int| true) + Seq::new(m, |i: int| false)) == (if n >= m {
            (n - m) as nat
        } else {
            0
        }),
    decreases n + m,
{
    let ev = Seq::new(n, |i: int| true) + Seq::new(m, |i: int| false);
    if m > 0 {
        assert(ev.drop_last() =~= Seq::new(n, |i: int| true) + Seq::new((m - 1) as nat, |i: int| false));
        assert(ev.last() == false);
        lemma_loop_depth_count(n, (m - 1) as nat);
    } else if n > 0 {
        assert(ev.drop_last() =~= Seq::new((n - 1) as nat, |i: int| true) + Seq::new(0, |i: int| false));
        assert(ev.last() == true);
        lemma_loop_depth_count((n - 1) as nat, 0);
    } else {
        assert(ev.len() == 0);
    }
}

} // verus!
