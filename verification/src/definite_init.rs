use vstd::prelude::*;

use std::collections::VecDeque;

use crate::diagnostics::{diag_error, diag_note, DiagCode, DiagView, Diagnostic};
use crate::ids::{Span, SymbolId};
use crate::init_bits::{words_for, InitBits, LocalId};
use crate::symbol_table::{Symbol, SymbolTable};

verus! {

/// Identifies a basic block of a function: its position.
#[derive(Debug, Clone, Copy, PartialEq, Eq, Hash, Structural)]
pub struct BlockId(pub u32);

impl BlockId {
    pub fn from_usize(n: usize) -> (r: BlockId)
        requires
            n <= u32::MAX,
        ensures
            r.0 == n,
    {
        BlockId(n as u32)
    }

    pub fn as_usize(self) -> (r: usize)
        ensures
            r == self.0,
    {
        self.0 as usize
    }
}

/// A memory place: a local, possibly reached through field or index
/// projections.
#[derive(Debug, Clone, Copy, PartialEq, Eq)]
pub struct AmirPlace {
    pub local: LocalId,
    pub projected: bool,
}

/// The right-hand side of an assignment, as far as initialisation goes:
/// a read or borrow of a place, or a value that reads no local.
#[derive(Debug, Clone, Copy, PartialEq, Eq)]
pub enum AmirRvalue {
    Load(AmirPlace),
    Borrow(AmirPlace),
    BorrowMut(AmirPlace),
    Other,
}

/// A statement of a basic block.
#[derive(Debug, Clone, Copy, PartialEq, Eq)]
pub enum AmirStmt {
    Assign { rhs: AmirRvalue },
    Store { lhs: AmirPlace },
    Call,
    Free,
    Destroy(AmirPlace),
    StorageLive(LocalId),
    StorageDead(LocalId),
}

/// How a basic block ends.
#[derive(Debug, Clone, PartialEq, Eq)]
pub enum AmirTerminator {
    Return,
    Unreachable,
    Goto(BlockId),
    Branch { if_true: BlockId, if_false: BlockId },
    SwitchInt { targets: Vec<BlockId>, otherwise: BlockId },
}

/// A basic block: its statements, its terminator and the blocks that
/// jump to it.
#[derive(Debug, Clone)]
pub struct AmirBlock {
    pub id: BlockId,
    pub statements: Vec<AmirStmt>,
    pub terminator: AmirTerminator,
    pub predecessors: Vec<BlockId>,
}

/// A function: for each local, the symbol it stands for (none for a local
/// the compiler made up), and the basic blocks, the entry block first.
#[derive(Debug, Clone)]
pub struct AmirFunc {
    pub locals: Vec<Option<SymbolId>>,
    pub blocks: Vec<AmirBlock>,
}

/// The blocks a terminator may jump to, in order.
pub open spec fn successors(t: AmirTerminator) -> Seq<BlockId> {
    match t {
        AmirTerminator::Return => Seq::empty(),
        AmirTerminator::Unreachable => Seq::empty(),
        AmirTerminator::Goto(b) => seq![b],
        AmirTerminator::Branch { if_true, if_false } => seq![if_true, if_false],
        AmirTerminator::SwitchInt { targets, otherwise } => targets@.push(otherwise),
    }
}

/// Whether `s` stores into local `l` itself, not through a projection.
pub open spec fn stores_local(s: AmirStmt, l: int) -> bool {
    match s {
        AmirStmt::Store { lhs } => !lhs.projected && lhs.local.0 == l,
        _ => false,
    }
}

/// The locals that a statement reads or borrows, or writes through a
/// projection: each must be initialised before it.
pub open spec fn used_local(s: AmirStmt) -> Option<LocalId> {
    match s {
        AmirStmt::Assign { rhs } => match rhs {
            AmirRvalue::Load(p) => Some(p.local),
            AmirRvalue::Borrow(p) => Some(p.local),
            AmirRvalue::BorrowMut(p) => Some(p.local),
            AmirRvalue::Other => None,
        },
        AmirStmt::Store { lhs } => if lhs.projected {
            Some(lhs.local)
        } else {
            None
        },
        AmirStmt::Destroy(p) => Some(p.local),
        _ => None,
    }
}

/// The blocks are well formed for the analysis: each block's id is its
/// position, every jump and predecessor names a block, and every local a
/// statement uses is a local of the function.
pub open spec fn cfg_ok(f: AmirFunc) -> bool {
    let n = f.blocks@.len();
    &&& n * n + 10 <= usize::MAX
    &&& f.locals@.len() <= u32::MAX
    &&& forall|b: int| 0 <= b < n ==> (#[trigger] f.blocks@[b]).id.0 == b
    &&& forall|b: int, k: int|
        0 <= b < n && 0 <= k < f.blocks@[b].predecessors@.len() ==> (
        #[trigger] f.blocks@[b].predecessors@[k]).0 < n
    &&& forall|b: int, k: int|
        0 <= b < n && 0 <= k < successors(f.blocks@[b].terminator).len() ==> (#[trigger] successors(
            f.blocks@[b].terminator,
        )[k]).0 < n
    &&& forall|b: int, k: int|
        0 <= b < n && 0 <= k < f.blocks@[b].statements@.len() ==> match used_local(
            #[trigger] f.blocks@[b].statements@[k],
        ) {
            Some(l) => l.0 < f.locals@.len(),
            None => true,
        }
}

/// The function is well formed for the analysis (`cfg_ok`), and the
/// symbol of every local a statement uses is one of `syms`.
pub open spec fn func_ok(f: AmirFunc, syms: Seq<Symbol>) -> bool {
    &&& cfg_ok(f)
    &&& forall|b: int, k: int|
        0 <= b < f.blocks@.len() && 0 <= k < f.blocks@[b].statements@.len() ==> match used_local(
            #[trigger] f.blocks@[b].statements@[k],
        ) {
            Some(l) => match f.locals@[l.0 as int] {
                Some(s) => s.0 < syms.len(),
                None => true,
            },
            None => true,
        }
}

/// The locals that block `b` certainly stores into.
pub open spec fn block_gen(f: AmirFunc, b: int) -> Seq<bool> {
    Seq::new(
        f.locals@.len(),
        |l: int|
            exists|k: int|
                0 <= k < f.blocks@[b].statements@.len() && stores_local(
                    #[trigger] f.blocks@[b].statements@[k],
                    l,
                ),
    )
}

/// The locals initialised on entry to block `b`, given the current facts
/// `outs` at the ends of blocks: none for the entry block and for a block
/// nothing jumps to, else those initialised at the end of every
/// predecessor.
pub open spec fn flow_in(f: AmirFunc, outs: Seq<Seq<bool>>, b: int) -> Seq<bool> {
    let preds = f.blocks@[b].predecessors@;
    if b == 0 || preds.len() == 0 {
        Seq::new(f.locals@.len(), |l: int| false)
    } else {
        Seq::new(
            f.locals@.len(),
            |l: int| forall|k: int| 0 <= k < preds.len() ==> #[trigger] outs[preds[k].0 as int][l],
        )
    }
}

/// The facts at the end of block `b`, from those at its entry.
pub open spec fn flow_out(f: AmirFunc, fin: Seq<bool>, b: int) -> Seq<bool> {
    Seq::new(f.locals@.len(), |l: int| fin[l] || block_gen(f, b)[l])
}

/// The state of the work-list analysis: the blocks still to visit, and
/// the facts at the entry and at the end of each block.
pub type FlowState = (Seq<BlockId>, Seq<Seq<bool>>, Seq<Seq<bool>>);

/// One round: visit the first block of the work list; where the facts at
/// its end change, queue its successors.
pub open spec fn flow_step(f: AmirFunc, st: FlowState) -> FlowState {
    let b = st.0[0].0 as int;
    let fin = flow_in(f, st.2, b);
    let fout = flow_out(f, fin, b);
    if fout != st.2[b] {
        (st.0.drop_first() + successors(f.blocks@[b].terminator), st.1.update(b, fin), st.2.update(b, fout))
    } else {
        (st.0.drop_first(), st.1.update(b, fin), st.2)
    }
}

/// At most `fuel` rounds, stopping early when the work list empties.
pub open spec fn flow_run(f: AmirFunc, st: FlowState, fuel: nat) -> FlowState
    decreases fuel,
{
    if st.0.len() == 0 || fuel == 0 {
        st
    } else {
        flow_run(f, flow_step(f, st), (fuel - 1) as nat)
    }
}

/// The facts at the entry of each block: every block queued in order,
/// every fact first assumed, and at most `n * n + 10` rounds for `n`
/// blocks.
pub open spec fn flow_entry_facts(f: AmirFunc) -> Seq<Seq<bool>> {
    let n = f.blocks@.len();
    let top = Seq::new(n, |b: int| Seq::new(f.locals@.len(), |l: int| true));
    let init: FlowState = (Seq::new(n, |b: int| BlockId(b as u32)), top, top);
    flow_run(f, init, n * n + 10).1
}

/// What a statement does to the running facts: a store into a local
/// itself initialises it.
pub open spec fn apply_stmt(s: AmirStmt, cur: Seq<bool>) -> Seq<bool> {
    match s {
        AmirStmt::Store { lhs } => if !lhs.projected && lhs.local.0 < cur.len() {
            cur.update(lhs.local.0 as int, true)
        } else {
            cur
        },
        _ => cur,
    }
}

/// The locals reported along `stmts`, starting from the facts `cur`: a
/// statement reports the local it uses when that local is not initialised
/// before it.
pub open spec fn stmt_reports(stmts: Seq<AmirStmt>, cur: Seq<bool>) -> Seq<LocalId>
    decreases stmts.len(),
{
    if stmts.len() == 0 {
        Seq::empty()
    } else {
        let here = match used_local(stmts[0]) {
            Some(l) => if l.0 < cur.len() && cur[l.0 as int] {
                Seq::empty()
            } else {
                seq![l]
            },
            None => Seq::empty(),
        };
        here + stmt_reports(stmts.drop_first(), apply_stmt(stmts[0], cur))
    }
}

/// The locals reported in the first `b` blocks, in order.
pub open spec fn func_reports(f: AmirFunc, facts: Seq<Seq<bool>>, b: int) -> Seq<LocalId>
    decreases b,
{
    if b <= 0 {
        Seq::empty()
    } else {
        func_reports(f, facts, b - 1) + stmt_reports(f.blocks@[b - 1].statements@, facts[b - 1])
    }
}

/// The locals the analysis reports, in order: none for a function without
/// locals or blocks.
pub open spec fn uninit_reports(f: AmirFunc) -> Seq<LocalId> {
    if f.locals@.len() == 0 || f.blocks@.len() == 0 {
        Seq::empty()
    } else {
        func_reports(f, flow_entry_facts(f), f.blocks@.len() as int)
    }
}

/// The name under which local `l` is reported.
pub open spec fn local_name(f: AmirFunc, syms: Seq<Symbol>, l: LocalId) -> Seq<char> {
    match f.locals@[l.0 as int] {
        Some(s) => syms[s.0 as int].name@,
        None => "<compiler local>"@,
    }
}

/// Whether `d` is the use-before-initialisation error for a variable
/// named `name`.
pub open spec fn is_uninit_diag(d: DiagView, name: Seq<char>) -> bool {
    d == diag_note(
        diag_error(
            DiagCode::O008UseBeforeInit,
            "use of possibly uninitialized variable `"@ + name + "`"@,
            Span { start: 0, end: 0 },
        ),
        "variable `"@ + name + "` may not be initialized on all paths"@,
    )
}

/// The facts of a list of bitsets.
pub open spec fn bit_views(v: Seq<InitBits>) -> Seq<Seq<bool>> {
    v.map_values(|b: InitBits| b@)
}

proof fn lemma_words_cover(n: nat)
    ensures
        n <= words_for(n) * 64,
{
    let q = (n + 63) / 64;
    assert(n + 63 == q * 64 + (n + 63) % 64);
}

/// A copy of `src`, bit for bit.
fn copy_bits(src: &InitBits, n: usize) -> (r: InitBits)
    requires
        src.wf(),
        src@.len() == n,
        n <= u32::MAX,
    ensures
        r.wf(),
        r@ == src@,
{
    let mut r = InitBits::new(n);
    let mut i: usize = 0;
    while i < n
        invariant
            r.wf(),
            src.wf(),
            src@.len() == n,
            r@.len() == n,
            n <= u32::MAX,
            i <= n,
            forall|j: int| 0 <= j < i ==> r@[j] == src@[j],
            forall|j: int| i <= j < n ==> !r@[j],
        decreases n - i,
    {
        let id = LocalId::from_usize(i);
        if src.get(id) {
            r.set(id);
        }
        i += 1;
    }
    assert(r@ =~= src@);
    r
}

/// Whether two bitsets of `n` bits hold the same bits.
fn bits_equal(a: &InitBits, b: &InitBits, n: usize) -> (r: bool)
    requires
        a.wf(),
        b.wf(),
        a@.len() == n,
        b@.len() == n,
        n <= u32::MAX,
    ensures
        r == (a@ == b@),
{
    let mut i: usize = 0;
    while i < n
        invariant
            a.wf(),
            b.wf(),
            a@.len() == n,
            b@.len() == n,
            n <= u32::MAX,
            i <= n,
            forall|j: int| 0 <= j < i ==> a@[j] == b@[j],
        decreases n - i,
    {
        let id = LocalId::from_usize(i);
        if a.get(id) != b.get(id) {
            assert(a@[i as int] != b@[i as int]);
            return false;
        }
        i += 1;
    }
    assert(a@ =~= b@);
    true
}

/// The local that `s` uses, if any; see `used_local`.
fn stmt_use(s: &AmirStmt) -> (r: Option<LocalId>)
    ensures
        r == used_local(*s),
{
    match s {
        AmirStmt::Assign { rhs } => match rhs {
            AmirRvalue::Load(p) => Some(p.local),
            AmirRvalue::Borrow(p) => Some(p.local),
            AmirRvalue::BorrowMut(p) => Some(p.local),
            AmirRvalue::Other => None,
        },
        AmirStmt::Store { lhs } => if lhs.projected {
            Some(lhs.local)
        } else {
            None
        },
        AmirStmt::Destroy(p) => Some(p.local),
        _ => None,
    }
}

/// The use-before-initialisation error for local `local`.
fn uninit_diag(func: &AmirFunc, symbols: &SymbolTable, local: LocalId) -> (d: Diagnostic)
    requires
        local.0 < func.locals@.len(),
        match func.locals@[local.0 as int] {
            Some(s) => s.0 < symbols.symbol_seq().len(),
            None => true,
        },
    ensures
        is_uninit_diag(d@, local_name(*func, symbols.symbol_seq(), local)),
{
    let name = match func.locals[local.as_usize()] {
        Some(s) => symbols.get(s).name.clone(),
        None => String::from_str("<compiler local>"),
    };
    let mut message = String::from_str("use of possibly uninitialized variable `");
    message.append(name.as_str());
    message.append("`");
    let mut note = String::from_str("variable `");
    note.append(name.as_str());
    note.append("` may not be initialized on all paths");
    Diagnostic::error(DiagCode::O008UseBeforeInit, message, Span::new(0, 0)).with_note(note)
}

/// The locals that block `block` certainly stores into.
fn gen_of(block: &AmirBlock, num_locals: usize, Ghost(f): Ghost<AmirFunc>, Ghost(b): Ghost<int>) -> (r: InitBits)
    requires
        0 <= b < f.blocks@.len(),
        f.blocks@[b] == *block,
        f.locals@.len() == num_locals,
        num_locals <= u32::MAX,
    ensures
        r.wf(),
        r@ == block_gen(f, b),
{
    let stmts = &block.statements;
    let mut g = InitBits::new(num_locals);
    let mut k: usize = 0;
    while k < stmts.len()
        invariant
            g.wf(),
            g@.len() == num_locals,
            num_locals <= u32::MAX,
            k <= stmts@.len(),
            stmts@ == f.blocks@[b].statements@,
            forall|l: int|
                0 <= l < num_locals ==> g@[l] == exists|j: int|
                    0 <= j < k && stores_local(#[trigger] stmts@[j], l),
        decreases stmts@.len() - k,
    {
        let ghost before = g@;
        match &stmts[k] {
            AmirStmt::Store { lhs } => {
                if !lhs.projected {
                    g.set(lhs.local);
                }
            },
            _ => {},
        }
        k += 1;
        proof {
            assert forall|l: int| 0 <= l < num_locals implies g@[l] == exists|j: int|
                0 <= j < k && stores_local(#[trigger] stmts@[j], l) by {
                if stores_local(stmts@[k - 1], l) {
                    assert(stores_local(stmts@[k - 1], l));
                }
                if exists|j: int| 0 <= j < k && stores_local(#[trigger] stmts@[j], l) {
                    let j = choose|j: int| 0 <= j < k && stores_local(#[trigger] stmts@[j], l);
                    if j < k - 1 {
                        assert(before[l]);
                    }
                }
            }
        }
    }
    assert(g@ =~= block_gen(f, b));
    g
}

/// The facts of a list of bitsets, after one of them is replaced.
proof fn lemma_bit_views_update(v: Seq<InitBits>, b: int, x: InitBits)
    requires
        0 <= b < v.len(),
    ensures
        bit_views(v.update(b, x)) == bit_views(v).update(b, x@),
{
    assert(bit_views(v.update(b, x)) =~= bit_views(v).update(b, x@));
}

/// Starting from `cur`, the reports along `stmts` are those of its first
/// statement followed by those of the rest.
proof fn lemma_stmt_reports_step(stmts: Seq<AmirStmt>, k: int, cur: Seq<bool>)
    requires
        0 <= k < stmts.len(),
    ensures
        stmt_reports(stmts.skip(k), cur) == (match used_local(stmts[k]) {
            Some(l) => if l.0 < cur.len() && cur[l.0 as int] {
                Seq::<LocalId>::empty()
            } else {
                seq![l]
            },
            None => Seq::<LocalId>::empty(),
        }) + stmt_reports(stmts.skip(k + 1), apply_stmt(stmts[k], cur)),
{
    assert(stmts.skip(k).drop_first() =~= stmts.skip(k + 1));
}

/// A vector of `n` bitsets with every one of `num_locals` locals
/// initialised.
fn all_init_blocks(n: usize, num_locals: usize) -> (r: Vec<InitBits>)
    ensures
        r@.len() == n,
        forall|b: int| 0 <= b < n ==> (#[trigger] r@[b]).wf(),
        forall|b: int| 0 <= b < n ==> (#[trigger] r@[b])@.len() == num_locals,
        bit_views(r@) == Seq::new(n as nat, |b: int| Seq::new(num_locals as nat, |l: int| true)),
{
    let mut r: Vec<InitBits> = Vec::new();
    let mut i: usize = 0;
    while i < n
        invariant
            i <= n,
            r@.len() == i,
            forall|b: int| 0 <= b < i ==> (#[trigger] r@[b]).wf(),
            forall|b: int| 0 <= b < i ==> (#[trigger] r@[b])@ == Seq::new(num_locals as nat, |l: int| true),
        decreases n - i,
    {
        r.push(InitBits::all_init(num_locals));
        i += 1;
    }
    assert(bit_views(r@) =~= Seq::new(n as nat, |b: int| Seq::new(num_locals as nat, |l: int| true)));
    r
}

/// The facts at the entry of block `b` from the current facts at the ends
/// of blocks; see `flow_in`.
fn entry_facts(func: &AmirFunc, block_out: &Vec<InitBits>, b: usize) -> (r: InitBits)
    requires
        b < func.blocks@.len(),
        block_out@.len() == func.blocks@.len(),
        func.locals@.len() <= u32::MAX,
        forall|k: int|
            0 <= k < func.blocks@[b as int].predecessors@.len() ==> (
            #[trigger] func.blocks@[b as int].predecessors@[k]).0 < func.blocks@.len(),
        forall|i: int| 0 <= i < block_out@.len() ==> (#[trigger] block_out@[i]).wf(),
        forall|i: int|
            0 <= i < block_out@.len() ==> (#[trigger] block_out@[i])@.len() == func.locals@.len(),
    ensures
        r.wf(),
        r@ == flow_in(*func, bit_views(block_out@), b as int),
{
    let num_locals = func.locals.len();
    let preds = &func.blocks[b].predecessors;
    if b == 0 || preds.len() == 0 {
        let r = InitBits::new(num_locals);
        assert(r@ =~= flow_in(*func, bit_views(block_out@), b as int));
        return r;
    }
    let mut acc = InitBits::all_init(num_locals);
    let mut j: usize = 0;
    proof {
        lemma_words_cover(num_locals as nat);
    }
    while j < preds.len()
        invariant
            acc.wf(),
            acc@.len() == num_locals,
            num_locals == func.locals@.len(),
            num_locals <= words_for(num_locals as nat) * 64,
            preds@ == func.blocks@[b as int].predecessors@,
            j <= preds@.len(),
            block_out@.len() == func.blocks@.len(),
            forall|k: int| 0 <= k < preds@.len() ==> (#[trigger] preds@[k]).0 < func.blocks@.len(),
            forall|i: int| 0 <= i < block_out@.len() ==> (#[trigger] block_out@[i]).wf(),
            forall|i: int|
                0 <= i < block_out@.len() ==> (#[trigger] block_out@[i])@.len() == num_locals,
            forall|l: int|
                0 <= l < num_locals ==> acc@[l] == forall|k: int|
                    0 <= k < j ==> #[trigger] bit_views(block_out@)[preds@[k].0 as int][l],
        decreases preds@.len() - j,
    {
        let p = preds[j].as_usize();
        let ghost before = acc@;
        acc.intersect_with(&block_out[p]);
        j += 1;
        proof {
            assert forall|l: int| 0 <= l < num_locals implies acc@[l] == forall|k: int|
                0 <= k < j ==> #[trigger] bit_views(block_out@)[preds@[k].0 as int][l] by {
                assert(acc@[l] == (before[l] && block_out@[p as int]@[l]));
                assert(bit_views(block_out@)[preds@[j - 1].0 as int] == block_out@[p as int]@);
                if acc@[l] {
                    assert forall|k: int| 0 <= k < j implies #[trigger] bit_views(
                        block_out@,
                    )[preds@[k].0 as int][l] by {
                        if k < j - 1 {
                            assert(before[l]);
                        }
                    }
                } else if before[l] {
                    assert(!bit_views(block_out@)[preds@[j - 1].0 as int][l]);
                } else {
                    let k = choose|k: int|
                        0 <= k < j - 1 && !#[trigger] bit_views(block_out@)[preds@[k].0 as int][l];
                    assert(!bit_views(block_out@)[preds@[k].0 as int][l]);
                }
            }
        }
    }
    assert(acc@ =~= flow_in(*func, bit_views(block_out@), b as int));
    acc
}


/// The facts at the end of block `b` from those at its entry; see
/// `flow_out`.
fn exit_facts(new_in: &InitBits, gen: &InitBits, num_locals: usize, Ghost(f): Ghost<AmirFunc>, Ghost(b): Ghost<int>) -> (r: InitBits)
    requires
        new_in.wf(),
        gen.wf(),
        new_in@.len() == num_locals,
        gen@ == block_gen(f, b),
        f.locals@.len() == num_locals,
        num_locals <= u32::MAX,
    ensures
        r.wf(),
        r@ == flow_out(f, new_in@, b),
{
    let mut r = copy_bits(new_in, num_locals);
    let mut i: usize = 0;
    while i < num_locals
        invariant
            r.wf(),
            gen.wf(),
            r@.len() == num_locals,
            gen@.len() == num_locals,
            num_locals <= u32::MAX,
            i <= num_locals,
            forall|l: int| 0 <= l < i ==> r@[l] == (new_in@[l] || gen@[l]),
            forall|l: int| i <= l < num_locals ==> r@[l] == new_in@[l],
        decreases num_locals - i,
    {
        let lid = LocalId::from_usize(i);
        if gen.get(lid) {
            r.set(lid);
        }
        i += 1;
    }
    assert(r@ =~= flow_out(f, new_in@, b));
    r
}

/// Queues the blocks that `t` may jump to, in order.
fn push_successors(worklist: &mut VecDeque<BlockId>, t: &AmirTerminator)
    ensures
        final(worklist)@ == old(worklist)@ + successors(*t),
{
    match t {
        AmirTerminator::Return | AmirTerminator::Unreachable => {
            assert(old(worklist)@ + successors(*t) =~= old(worklist)@);
        },
        AmirTerminator::Goto(b) => {
            worklist.push_back(*b);
            assert(old(worklist)@ + successors(*t) =~= old(worklist)@.push(*b));
        },
        AmirTerminator::Branch { if_true, if_false } => {
            worklist.push_back(*if_true);
            worklist.push_back(*if_false);
            assert(old(worklist)@ + successors(*t) =~= old(worklist)@.push(*if_true).push(*if_false));
        },
        AmirTerminator::SwitchInt { targets, otherwise } => {
            let mut j: usize = 0;
            while j < targets.len()
                invariant
                    j <= targets@.len(),
                    worklist@ == old(worklist)@ + targets@.subrange(0, j as int),
                decreases targets@.len() - j,
            {
                worklist.push_back(targets[j]);
                j += 1;
                assert(worklist@ =~= old(worklist)@ + targets@.subrange(0, j as int));
            }
            worklist.push_back(*otherwise);
            assert(old(worklist)@ + successors(*t) =~= old(worklist)@ + targets@.subrange(
                0,
                targets@.len() as int,
            ).push(*otherwise));
        },
    }
}


/// The facts at the entry of each block, computed by the work-list
/// analysis; see `flow_entry_facts`.
fn solve_entry_facts(func: &AmirFunc, Ghost(syms): Ghost<Seq<Symbol>>) -> (r: Vec<InitBits>)
    requires
        func_ok(*func, syms),
    ensures
        r@.len() == func.blocks@.len(),
        forall|b: int| 0 <= b < r@.len() ==> (#[trigger] r@[b]).wf(),
        forall|b: int| 0 <= b < r@.len() ==> (#[trigger] r@[b])@.len() == func.locals@.len(),
        bit_views(r@) == flow_entry_facts(*func),
{
    let ghost f = *func;
    let num_locals = func.locals.len();
    let num_blocks = func.blocks.len();
    let mut block_gens: Vec<InitBits> = Vec::new();
    let mut b: usize = 0;
    while b < num_blocks
        invariant
            f == *func,
            func_ok(f, syms),
            num_locals == f.locals@.len(),
            num_blocks == f.blocks@.len(),
            b <= num_blocks,
            block_gens@.len() == b,
            forall|i: int| 0 <= i < b ==> (#[trigger] block_gens@[i]).wf(),
            forall|i: int| 0 <= i < b ==> (#[trigger] block_gens@[i])@ == block_gen(f, i),
        decreases num_blocks - b,
    {
        block_gens.push(gen_of(&func.blocks[b], num_locals, Ghost(f), Ghost(b as int)));
        b += 1;
    }
    let mut block_in = all_init_blocks(num_blocks, num_locals);
    let mut block_out = all_init_blocks(num_blocks, num_locals);
    let mut worklist: VecDeque<BlockId> = VecDeque::new();
    let mut b: usize = 0;
    while b < num_blocks
        invariant
            f == *func,
            func_ok(f, syms),
            num_blocks == f.blocks@.len(),
            b <= num_blocks,
            worklist@ == Seq::new(b as nat, |i: int| BlockId(i as u32)),
        decreases num_blocks - b,
    {
        worklist.push_back(func.blocks[b].id);
        b += 1;
        assert(worklist@ =~= Seq::new(b as nat, |i: int| BlockId(i as u32)));
    }
    let max_iterations = num_blocks * num_blocks + 10;
    let mut iterations: usize = 0;
    let ghost top = Seq::new(num_blocks as nat, |i: int| Seq::new(num_locals as nat, |l: int| true));
    let ghost init: FlowState = (worklist@, top, top);
    loop
        invariant_except_break
            f == *func,
            func_ok(f, syms),
            num_locals == f.locals@.len(),
            num_blocks == f.blocks@.len(),
            max_iterations == num_blocks * num_blocks + 10,
            iterations <= max_iterations,
            block_gens@.len() == num_blocks,
            forall|i: int| 0 <= i < num_blocks ==> (#[trigger] block_gens@[i]).wf(),
            forall|i: int| 0 <= i < num_blocks ==> (#[trigger] block_gens@[i])@ == block_gen(f, i),
            block_in@.len() == num_blocks,
            block_out@.len() == num_blocks,
            forall|i: int| 0 <= i < num_blocks ==> (#[trigger] block_in@[i]).wf(),
            forall|i: int| 0 <= i < num_blocks ==> (#[trigger] block_out@[i]).wf(),
            forall|i: int| 0 <= i < num_blocks ==> (#[trigger] block_in@[i])@.len() == num_locals,
            forall|i: int| 0 <= i < num_blocks ==> (#[trigger] block_out@[i])@.len() == num_locals,
            forall|i: int| 0 <= i < worklist@.len() ==> (#[trigger] worklist@[i]).0 < num_blocks,
            flow_run(f, (worklist@, bit_views(block_in@), bit_views(block_out@)), (max_iterations - iterations) as nat)
                == flow_run(f, init, (num_blocks * num_blocks + 10) as nat),
        ensures
            block_in@.len() == num_blocks,
            forall|i: int| 0 <= i < num_blocks ==> (#[trigger] block_in@[i]).wf(),
            forall|i: int| 0 <= i < num_blocks ==> (#[trigger] block_in@[i])@.len() == num_locals,
            bit_views(block_in@) == flow_run(f, init, (num_blocks * num_blocks + 10) as nat).1,
        decreases max_iterations - iterations,
    {
        let ghost st: FlowState = (worklist@, bit_views(block_in@), bit_views(block_out@));
        if iterations >= max_iterations {
            break;
        }
        let bid = match worklist.pop_front() {
            Some(x) => x,
            None => {
                break;
            },
        };
        iterations += 1;
        let bi = bid.as_usize();
        let block = &func.blocks[bi];
        let new_in = entry_facts(func, &block_out, bi);
        let new_out = exit_facts(&new_in, &block_gens[bi], num_locals, Ghost(f), Ghost(bi as int));
        proof {
            assert(st.0[0] == bid);
            assert(new_in@ == flow_in(f, st.2, bi as int));
        }
        if !bits_equal(&new_out, &block_out[bi], num_locals) {
            let ghost in_old = block_in@;
            let ghost out_old = block_out@;
            block_in.set(bi, new_in);
            block_out.set(bi, new_out);
            push_successors(&mut worklist, &block.terminator);
            proof {
                lemma_bit_views_update(in_old, bi as int, new_in);
                lemma_bit_views_update(out_old, bi as int, new_out);
                assert(st.0.drop_first() =~= st.0.subrange(1, st.0.len() as int));
                assert forall|i: int| 0 <= i < worklist@.len() implies (#[trigger] worklist@[i]).0 < num_blocks by {
                    if i >= st.0.len() - 1 {
                        assert(worklist@[i] == successors(f.blocks@[bi as int].terminator)[i - (st.0.len() - 1)]);
                    } else {
                        assert(worklist@[i] == st.0[i + 1]);
                    }
                }
            }
        } else {
            let ghost in_old = block_in@;
            block_in.set(bi, new_in);
            proof {
                lemma_bit_views_update(in_old, bi as int, new_in);
                assert(st.0.drop_first() =~= st.0.subrange(1, st.0.len() as int));
                assert forall|i: int| 0 <= i < worklist@.len() implies (#[trigger] worklist@[i]).0 < num_blocks by {
                    assert(worklist@[i] == st.0[i + 1]);
                }
            }
        }
    }
    block_in
}


/// The use-before-initialisation errors of `func`: one for each statement
/// that reads, borrows or writes through a projection of a local that the
/// analysis does not find initialised before it, in block and statement
/// order.
pub fn check_definite_init(func: &AmirFunc, symbols: &SymbolTable) -> (r: Vec<Diagnostic>)
    requires
        func_ok(*func, symbols.symbol_seq()),
    ensures
        r@.len() == uninit_reports(*func).len(),
        forall|i: int|
            0 <= i < r@.len() ==> is_uninit_diag(
                #[trigger] r@[i]@,
                local_name(*func, symbols.symbol_seq(), uninit_reports(*func)[i]),
            ),
{
    let ghost f = *func;
    let ghost syms = symbols.symbol_seq();
    let num_locals = func.locals.len();
    let num_blocks = func.blocks.len();
    let mut diagnostics: Vec<Diagnostic> = Vec::new();
    if num_locals == 0 || num_blocks == 0 {
        return diagnostics;
    }
    let block_in = solve_entry_facts(func, Ghost(syms));
    let ghost facts = flow_entry_facts(f);
    let ghost reported: Seq<LocalId> = Seq::empty();
    let mut bi: usize = 0;
    while bi < num_blocks
        invariant
            f == *func,
            syms == symbols.symbol_seq(),
            func_ok(f, syms),
            num_locals == f.locals@.len(),
            num_blocks == f.blocks@.len(),
            bi <= num_blocks,
            block_in@.len() == num_blocks,
            forall|i: int| 0 <= i < num_blocks ==> (#[trigger] block_in@[i]).wf(),
            forall|i: int| 0 <= i < num_blocks ==> (#[trigger] block_in@[i])@.len() == num_locals,
            bit_views(block_in@) == facts,
            reported == func_reports(f, facts, bi as int),
            diagnostics@.len() == reported.len(),
            forall|i: int|
                0 <= i < diagnostics@.len() ==> is_uninit_diag(
                    #[trigger] diagnostics@[i]@,
                    local_name(f, syms, reported[i]),
                ),
        decreases num_blocks - bi,
    {
        let stmts = &func.blocks[bi].statements;
        let mut current = copy_bits(&block_in[bi], num_locals);
        let ghost total = func_reports(f, facts, bi as int + 1);
        proof {
            assert(facts[bi as int] == block_in@[bi as int]@);
            assert(stmts@.skip(0) =~= stmts@);
        }
        let mut k: usize = 0;
        while k < stmts.len()
            invariant
                f == *func,
                syms == symbols.symbol_seq(),
                func_ok(f, syms),
                num_locals == f.locals@.len(),
                bi < num_blocks,
                num_blocks == f.blocks@.len(),
                stmts@ == f.blocks@[bi as int].statements@,
                k <= stmts@.len(),
                current.wf(),
                current@.len() == num_locals,
                total == reported + stmt_reports(stmts@.skip(k as int), current@),
                diagnostics@.len() == reported.len(),
                forall|i: int|
                    0 <= i < diagnostics@.len() ==> is_uninit_diag(
                        #[trigger] diagnostics@[i]@,
                        local_name(f, syms, reported[i]),
                    ),
            decreases stmts@.len() - k,
        {
            let stmt = &stmts[k];
            let ghost cur = current@;
            proof {
                lemma_stmt_reports_step(stmts@, k as int, cur);
            }
            match stmt_use(stmt) {
                Some(l) => {
                    if !current.get(l) {
                        diagnostics.push(uninit_diag(func, symbols, l));
                        proof {
                            reported = reported.push(l);
                        }
                    }
                },
                None => {},
            }
            match stmt {
                AmirStmt::Store { lhs } => {
                    if !lhs.projected {
                        current.set(lhs.local);
                    }
                },
                _ => {},
            }
            proof {
                assert(current@ == apply_stmt(stmts@[k as int], cur));
            }
            k += 1;
        }
        proof {
            assert(stmts@.skip(k as int) =~= Seq::<AmirStmt>::empty());
            assert(reported =~= total);
        }
        bi += 1;
    }
    diagnostics
}


/// Whether block `b` lists block `p` among its predecessors.
pub open spec fn lists_pred(f: AmirFunc, b: int, p: int) -> bool {
    exists|k: int|
        0 <= k < f.blocks@[b].predecessors@.len() && (#[trigger] f.blocks@[b].predecessors@[k]).0 == p
}

/// Whether block `p` may jump to block `b`.
pub open spec fn jumps_to(f: AmirFunc, p: int, b: int) -> bool {
    exists|k: int|
        0 <= k < successors(f.blocks@[p].terminator).len() && (#[trigger] successors(
            f.blocks@[p].terminator,
        )[k]).0 == b
}

/// Every jump of the function is listed among the predecessors of its
/// target, and every predecessor jumps to the block it is listed for.
pub open spec fn edges_agree(f: AmirFunc) -> bool {
    forall|p: int, b: int|
        #![trigger lists_pred(f, b, p)]
        #![trigger jumps_to(f, p, b)]
        0 <= p < f.blocks@.len() && 0 <= b < f.blocks@.len() ==> (lists_pred(f, b, p) <==> jumps_to(f, p, b))
}

/// The first state of the analysis: every block queued in order, every
/// fact first assumed.
pub open spec fn flow_init(f: AmirFunc) -> FlowState {
    let n = f.blocks@.len();
    let top = Seq::new(n, |b: int| Seq::new(f.locals@.len(), |l: int| true));
    (Seq::new(n, |b: int| BlockId(b as u32)), top, top)
}

/// The analysis empties its work list within its round limit.
pub open spec fn flow_converges(f: AmirFunc) -> bool {
    flow_run(f, flow_init(f), (f.blocks@.len() * f.blocks@.len() + 10) as nat).0.len() == 0
}

/// `path` is a walk through the blocks of `f` that starts at the entry
/// block.
pub open spec fn is_entry_path(f: AmirFunc, path: Seq<int>) -> bool {
    &&& path.len() > 0
    &&& path[0] == 0
    &&& forall|i: int| 0 <= i < path.len() ==> 0 <= #[trigger] path[i] < f.blocks@.len()
    &&& forall|i: int| 0 <= i < path.len() - 1 ==> #[trigger] jumps_to(f, path[i], path[i + 1])
}

/// Whether block `b` is still queued.
spec fn queued(wl: Seq<BlockId>, b: int) -> bool {
    exists|i: int| 0 <= i < wl.len() && (#[trigger] wl[i]).0 == b
}

/// The facts of block `b` agree with those of its predecessors.
spec fn settled(f: AmirFunc, st: FlowState, b: int) -> bool {
    &&& st.1[b] == flow_in(f, st.2, b)
    &&& st.2[b] == flow_out(f, st.1[b], b)
}

/// Every block that is not queued is settled.
spec fn flow_inv(f: AmirFunc, st: FlowState) -> bool {
    let n = f.blocks@.len();
    &&& st.1.len() == n
    &&& st.2.len() == n
    &&& forall|i: int| 0 <= i < st.0.len() ==> 0 <= (#[trigger] st.0[i]).0 < n
    &&& forall|b: int| 0 <= b < n && !queued(st.0, b) ==> #[trigger] settled(f, st, b)
}

proof fn lemma_flow_in_frame(f: AmirFunc, outs: Seq<Seq<bool>>, b: int, p: int, x: Seq<bool>)
    requires
        0 <= p < outs.len(),
        0 <= b < f.blocks@.len(),
        outs.len() == f.blocks@.len(),
        cfg_ok(f),
        !lists_pred(f, b, p),
    ensures
        flow_in(f, outs.update(p, x), b) == flow_in(f, outs, b),
{
    let preds = f.blocks@[b].predecessors@;
    assert forall|k: int| 0 <= k < preds.len() implies outs.update(p, x)[(#[trigger] preds[k]).0 as int]
        == outs[preds[k].0 as int] by {
        assert(f.blocks@[b].predecessors@[k] == preds[k]);
        assert(preds[k].0 != p);
    }
    assert(flow_in(f, outs.update(p, x), b) =~= flow_in(f, outs, b));
}

proof fn lemma_flow_step_inv(f: AmirFunc, st: FlowState)
    requires
        cfg_ok(f),
        edges_agree(f),
        flow_inv(f, st),
        st.0.len() > 0,
        forall|b: int, k: int|
            0 <= b < f.blocks@.len() && 0 <= k < successors(f.blocks@[b].terminator).len() ==> (#[trigger] successors(
                f.blocks@[b].terminator,
            )[k]).0 < f.blocks@.len(),
    ensures
        flow_inv(f, flow_step(f, st)),
{
    let n = f.blocks@.len();
    let b = st.0[0].0 as int;
    let fin = flow_in(f, st.2, b);
    let fout = flow_out(f, fin, b);
    let next = flow_step(f, st);
    let succ = successors(f.blocks@[b].terminator);
    assert forall|i: int| 0 <= i < next.0.len() implies 0 <= (#[trigger] next.0[i]).0 < n by {
        if i < st.0.len() - 1 {
            assert(next.0[i] == st.0[i + 1]);
        } else {
            assert(next.0[i] == succ[i - (st.0.len() - 1)]);
        }
    }
    assert forall|c: int| 0 <= c < n && !queued(next.0, c) implies #[trigger] settled(f, next, c) by {
        if fout != st.2[b] {
            if c == b {
                assert(!jumps_to(f, b, b)) by {
                    if jumps_to(f, b, b) {
                        let k = choose|k: int| 0 <= k < succ.len() && (#[trigger] succ[k]).0 == b;
                        assert(next.0[st.0.len() - 1 + k] == succ[k]);
                    }
                }
                assert(!lists_pred(f, b, b));
                lemma_flow_in_frame(f, st.2, b, b, fout);
            } else {
                assert(!queued(st.0, c)) by {
                    if queued(st.0, c) {
                        let i = choose|i: int| 0 <= i < st.0.len() && (#[trigger] st.0[i]).0 == c;
                        assert(i != 0);
                        assert(next.0[i - 1] == st.0[i]);
                    }
                }
                assert(settled(f, st, c));
                assert(!jumps_to(f, b, c)) by {
                    if jumps_to(f, b, c) {
                        let k = choose|k: int| 0 <= k < succ.len() && (#[trigger] succ[k]).0 == c;
                        assert(next.0[st.0.len() - 1 + k] == succ[k]);
                    }
                }
                assert(!lists_pred(f, c, b));
                lemma_flow_in_frame(f, st.2, c, b, fout);
            }
        } else {
            if c == b {
                assert(next.2 == st.2);
            } else {
                assert(!queued(st.0, c)) by {
                    if queued(st.0, c) {
                        let i = choose|i: int| 0 <= i < st.0.len() && (#[trigger] st.0[i]).0 == c;
                        assert(i != 0);
                        assert(next.0[i - 1] == st.0[i]);
                    }
                }
                assert(settled(f, st, c));
            }
        }
    }
}


proof fn lemma_flow_run_inv(f: AmirFunc, st: FlowState, fuel: nat)
    requires
        cfg_ok(f),
        edges_agree(f),
        flow_inv(f, st),
    ensures
        flow_inv(f, flow_run(f, st, fuel)),
    decreases fuel,
{
    if st.0.len() > 0 && fuel > 0 {
        lemma_flow_step_inv(f, st);
        lemma_flow_run_inv(f, flow_step(f, st), (fuel - 1) as nat);
    }
}

/// Once the analysis has converged, the facts at the entry of the last
/// block of an entry path lack every local that no earlier block of the
/// path stores into.
proof fn lemma_facts_along_path(f: AmirFunc, st: FlowState, path: Seq<int>, l: int)
    requires
        cfg_ok(f),
        edges_agree(f),
        flow_inv(f, st),
        st.0.len() == 0,
        is_entry_path(f, path),
        0 <= l < f.locals@.len(),
        forall|i: int| 0 <= i < path.len() - 1 ==> !(#[trigger] block_gen(f, path[i]))[l],
    ensures
        !st.1[path.last()][l],
    decreases path.len(),
{
    let b = path.last();
    assert(!queued(st.0, b));
    assert(settled(f, st, b));
    if path.len() > 1 {
        let m = path.len() - 1;
        let p = path[m - 1];
        let i0 = m - 1;
        assert(jumps_to(f, path[i0], path[i0 + 1]));
        assert(lists_pred(f, b, p));
        let prefix = path.subrange(0, m);
        assert(is_entry_path(f, prefix)) by {
            assert forall|i: int| 0 <= i < prefix.len() - 1 implies #[trigger] jumps_to(f, prefix[i], prefix[i + 1]) by {
                assert(prefix[i] == path[i] && prefix[i + 1] == path[i + 1]);
                assert(jumps_to(f, path[i], path[i + 1]));
            }
            assert forall|i: int| 0 <= i < prefix.len() implies 0 <= #[trigger] prefix[i] < f.blocks@.len() by {
                assert(prefix[i] == path[i]);
            }
        }
        assert forall|i: int| 0 <= i < prefix.len() - 1 implies !(#[trigger] block_gen(f, prefix[i]))[l] by {
            assert(prefix[i] == path[i]);
            assert(!block_gen(f, path[i])[l]);
        }
        lemma_facts_along_path(f, st, prefix, l);
        assert(prefix.last() == p);
        assert(!queued(st.0, p));
        assert(settled(f, st, p));
        assert(!block_gen(f, path[m - 1])[l]);
        assert(!st.2[p][l]);
        let preds = f.blocks@[b].predecessors@;
        if b != 0 && preds.len() > 0 {
            let k = choose|k: int| 0 <= k < preds.len() && (#[trigger] f.blocks@[b].predecessors@[k]).0 == p;
            assert(!st.2[preds[k].0 as int][l]);
        }
    }
}

/// Along `stmts`, a statement that uses a local not initialised in `cur`
/// and stored into by no statement before it is reported.
proof fn lemma_use_reported(stmts: Seq<AmirStmt>, cur: Seq<bool>, k: int, l: int)
    requires
        0 <= k < stmts.len(),
        0 <= l < cur.len(),
        !cur[l],
        used_local(stmts[k]) matches Some(u) && u.0 == l,
        forall|j: int| 0 <= j < k ==> !stores_local(#[trigger] stmts[j], l),
    ensures
        stmt_reports(stmts, cur).contains(used_local(stmts[k])->0),
    decreases k,
{
    let u = used_local(stmts[k])->0;
    let r = stmt_reports(stmts, cur);
    if k == 0 {
        assert(r[0] == u);
    } else {
        let next = apply_stmt(stmts[0], cur);
        assert(!stores_local(stmts[0], l));
        assert(next.len() == cur.len());
        assert(!next[l]);
        let rest = stmts.drop_first();
        assert forall|j: int| 0 <= j < k - 1 implies !stores_local(#[trigger] rest[j], l) by {
            assert(rest[j] == stmts[j + 1]);
        }
        assert(rest[k - 1] == stmts[k]);
        lemma_use_reported(rest, next, k - 1, l);
        let here = r.len() - stmt_reports(rest, next).len();
        let i = choose|i: int| 0 <= i < stmt_reports(rest, next).len() && stmt_reports(rest, next)[i] == u;
        assert(r[here + i] == u);
    }
}

/// The reports of the first `m` blocks hold those of each block below `m`.
proof fn lemma_func_reports_hold(f: AmirFunc, facts: Seq<Seq<bool>>, m: int, b: int, x: LocalId)
    requires
        0 <= b < m,
        stmt_reports(f.blocks@[b].statements@, facts[b]).contains(x),
    ensures
        func_reports(f, facts, m).contains(x),
    decreases m,
{
    let before = func_reports(f, facts, m - 1);
    let here = stmt_reports(f.blocks@[m - 1].statements@, facts[m - 1]);
    if b == m - 1 {
        let i = choose|i: int| 0 <= i < here.len() && here[i] == x;
        assert(func_reports(f, facts, m)[before.len() + i] == x);
    } else {
        lemma_func_reports_hold(f, facts, m - 1, b, x);
        let i = choose|i: int| 0 <= i < before.len() && before[i] == x;
        assert(func_reports(f, facts, m)[i] == x);
    }
}

/// Soundness of the use-before-initialisation check: where the analysis
/// converges and the predecessor lists agree with the jumps, a use of a
/// local is reported whenever some path from the entry block reaches it
/// without a store into that local itself.
pub proof fn lemma_uninit_path_reported(f: AmirFunc, path: Seq<int>, k: int, l: LocalId)
    requires
        cfg_ok(f),
        edges_agree(f),
        flow_converges(f),
        is_entry_path(f, path),
        0 <= k < f.blocks@[path.last()].statements@.len(),
        used_local(f.blocks@[path.last()].statements@[k]) == Some(l),
        forall|i: int| 0 <= i < path.len() - 1 ==> !(#[trigger] block_gen(f, path[i]))[l.0 as int],
        forall|j: int|
            0 <= j < k ==> !stores_local(#[trigger] f.blocks@[path.last()].statements@[j], l.0 as int),
    ensures
        uninit_reports(f).contains(l),
{
    let n = f.blocks@.len();
    let b = path.last();
    assert(used_local(f.blocks@[b].statements@[k]) matches Some(u) && u.0 < f.locals@.len());
    let init = flow_init(f);
    assert forall|bb: int| 0 <= bb < n && !queued(init.0, bb) implies #[trigger] settled(f, init, bb) by {
        assert(f.blocks@[bb].id.0 == bb);
        assert(init.0[bb].0 == bb);
    }
    lemma_flow_run_inv(f, init, (n * n + 10) as nat);
    let fin = flow_run(f, init, (n * n + 10) as nat);
    lemma_facts_along_path(f, fin, path, l.0 as int);
    assert(flow_entry_facts(f) == fin.1);
    let facts = flow_entry_facts(f);
    assert(!queued(fin.0, b));
    assert(settled(f, fin, b));
    lemma_use_reported(f.blocks@[b].statements@, facts[b], k, l.0 as int);
    lemma_func_reports_hold(f, facts, n as int, b, l);
}


/// Every block but the entry block has a predecessor.
pub open spec fn preds_nonempty(f: AmirFunc) -> bool {
    forall|b: int| 0 < b < f.blocks@.len() ==> (#[trigger] f.blocks@[b]).predecessors@.len() > 0
}

/// Some path from the entry block reaches block `b`, and no block before
/// `b` on it stores into local `l`.
pub open spec fn uninit_on_entry(f: AmirFunc, b: int, l: int) -> bool {
    exists|path: Seq<int>|
        #[trigger] is_entry_path(f, path) && path.last() == b && forall|i: int|
            0 <= i < path.len() - 1 ==> !(#[trigger] block_gen(f, path[i]))[l]
}

/// Some path from the entry block reaches block `b`, and no block on it,
/// `b` included, stores into local `l`.
spec fn uninit_on_exit(f: AmirFunc, b: int, l: int) -> bool {
    exists|path: Seq<int>|
        #[trigger] is_entry_path(f, path) && path.last() == b && forall|i: int|
            0 <= i < path.len() ==> !(#[trigger] block_gen(f, path[i]))[l]
}

/// Every fact the analysis has dropped is backed by a path.
spec fn facts_witnessed(f: AmirFunc, st: FlowState) -> bool {
    let n = f.blocks@.len();
    let nl = f.locals@.len();
    &&& st.1.len() == n
    &&& st.2.len() == n
    &&& forall|b: int| 0 <= b < n ==> (#[trigger] st.1[b]).len() == nl
    &&& forall|b: int| 0 <= b < n ==> (#[trigger] st.2[b]).len() == nl
    &&& forall|i: int| 0 <= i < st.0.len() ==> 0 <= (#[trigger] st.0[i]).0 < n
    &&& forall|b: int, l: int| 0 <= b < n && 0 <= l < nl && !(#[trigger] st.1[b][l]) ==> uninit_on_entry(f, b, l)
    &&& forall|b: int, l: int| 0 <= b < n && 0 <= l < nl && !(#[trigger] st.2[b][l]) ==> uninit_on_exit(f, b, l)
}

proof fn lemma_flow_step_witnessed(f: AmirFunc, st: FlowState)
    requires
        cfg_ok(f),
        edges_agree(f),
        preds_nonempty(f),
        facts_witnessed(f, st),
        st.0.len() > 0,
    ensures
        facts_witnessed(f, flow_step(f, st)),
{
    let n = f.blocks@.len();
    let nl = f.locals@.len();
    let b0 = st.0[0].0 as int;
    let fin = flow_in(f, st.2, b0);
    let fout = flow_out(f, fin, b0);
    let next = flow_step(f, st);
    let succ = successors(f.blocks@[b0].terminator);
    assert forall|i: int| 0 <= i < next.0.len() implies 0 <= (#[trigger] next.0[i]).0 < n by {
        if i < st.0.len() - 1 {
            assert(next.0[i] == st.0[i + 1]);
        } else {
            assert(next.0[i] == succ[i - (st.0.len() - 1)]);
        }
    }
    assert forall|l: int| 0 <= l < nl && !fin[l] implies uninit_on_entry(f, b0, l) by {
        let preds = f.blocks@[b0].predecessors@;
        if b0 == 0 {
            let path = seq![0int];
            assert(is_entry_path(f, path));
        } else {
            assert(preds.len() > 0);
            let k = choose|k: int| 0 <= k < preds.len() && !#[trigger] st.2[preds[k].0 as int][l];
            let p = preds[k].0 as int;
            assert(f.blocks@[b0].predecessors@[k] == preds[k]);
            assert(0 <= p < n);
            assert(uninit_on_exit(f, p, l));
            let path = choose|path: Seq<int>|
                #[trigger] is_entry_path(f, path) && path.last() == p && forall|i: int|
                    0 <= i < path.len() ==> !(#[trigger] block_gen(f, path[i]))[l];
            assert(lists_pred(f, b0, p));
            assert(jumps_to(f, p, b0));
            let np = path.push(b0);
            assert forall|i: int| 0 <= i < np.len() - 1 implies #[trigger] jumps_to(f, np[i], np[i + 1]) by {
                if i < path.len() - 1 {
                    assert(np[i] == path[i] && np[i + 1] == path[i + 1]);
                    assert(jumps_to(f, path[i], path[i + 1]));
                } else {
                    assert(np[i] == p && np[i + 1] == b0);
                }
            }
            assert forall|i: int| 0 <= i < np.len() implies 0 <= #[trigger] np[i] < n by {
                if i < path.len() {
                    assert(np[i] == path[i]);
                }
            }
            assert(is_entry_path(f, np));
            assert forall|i: int| 0 <= i < np.len() - 1 implies !(#[trigger] block_gen(f, np[i]))[l] by {
                assert(np[i] == path[i]);
                assert(!block_gen(f, path[i])[l]);
            }
            assert(np.last() == b0);
        }
    }
    assert forall|l: int| 0 <= l < nl && !fout[l] implies uninit_on_exit(f, b0, l) by {
        assert(!fin[l] && !block_gen(f, b0)[l]);
        assert(uninit_on_entry(f, b0, l));
        let path = choose|path: Seq<int>|
            #[trigger] is_entry_path(f, path) && path.last() == b0 && forall|i: int|
                0 <= i < path.len() - 1 ==> !(#[trigger] block_gen(f, path[i]))[l];
        assert forall|i: int| 0 <= i < path.len() implies !(#[trigger] block_gen(f, path[i]))[l] by {
            if i == path.len() - 1 {
                assert(path[i] == b0);
            }
        }
    }
    assert forall|b: int, l: int| 0 <= b < n && 0 <= l < nl && !(#[trigger] next.1[b][l]) implies uninit_on_entry(
        f,
        b,
        l,
    ) by {
        if b == b0 {
            assert(next.1[b] == fin);
        } else {
            assert(next.1[b] == st.1[b]);
        }
    }
    assert forall|b: int, l: int| 0 <= b < n && 0 <= l < nl && !(#[trigger] next.2[b][l]) implies uninit_on_exit(
        f,
        b,
        l,
    ) by {
        if b == b0 && fout != st.2[b0] {
            assert(next.2[b] == fout);
        } else {
            assert(next.2[b] == st.2[b]);
        }
    }
}

proof fn lemma_flow_run_witnessed(f: AmirFunc, st: FlowState, fuel: nat)
    requires
        cfg_ok(f),
        edges_agree(f),
        preds_nonempty(f),
        facts_witnessed(f, st),
    ensures
        facts_witnessed(f, flow_run(f, st, fuel)),
    decreases fuel,
{
    if st.0.len() > 0 && fuel > 0 {
        lemma_flow_step_witnessed(f, st);
        lemma_flow_run_witnessed(f, flow_step(f, st), (fuel - 1) as nat);
    }
}

/// A local reported along `stmts` from the facts `cur` is used by some
/// statement, is not initialised in `cur`, and is stored into by no
/// statement before that one.
proof fn lemma_report_has_use(stmts: Seq<AmirStmt>, cur: Seq<bool>, l: LocalId)
    requires
        stmt_reports(stmts, cur).contains(l),
        l.0 < cur.len(),
    ensures
        !cur[l.0 as int],
        exists|k: int|
            0 <= k < stmts.len() && used_local(#[trigger] stmts[k]) == Some(l) && forall|j: int|
                0 <= j < k ==> !stores_local(#[trigger] stmts[j], l.0 as int),
    decreases stmts.len(),
{
    let r = stmt_reports(stmts, cur);
    let rest = stmts.drop_first();
    let next = apply_stmt(stmts[0], cur);
    let here = match used_local(stmts[0]) {
        Some(u) => if u.0 < cur.len() && cur[u.0 as int] {
            Seq::<LocalId>::empty()
        } else {
            seq![u]
        },
        None => Seq::<LocalId>::empty(),
    };
    assert(r == here + stmt_reports(rest, next));
    let i = choose|i: int| 0 <= i < r.len() && r[i] == l;
    if i < here.len() {
        assert(used_local(stmts[0]) == Some(l));
    } else {
        assert(stmt_reports(rest, next)[i - here.len()] == l);
        assert(stmt_reports(rest, next).contains(l));
        lemma_report_has_use(rest, next, l);
        let k = choose|k: int|
            0 <= k < rest.len() && used_local(#[trigger] rest[k]) == Some(l) && forall|j: int|
                0 <= j < k ==> !stores_local(#[trigger] rest[j], l.0 as int);
        assert(!stores_local(stmts[0], l.0 as int));
        assert(rest[k] == stmts[k + 1]);
        assert forall|j: int| 0 <= j < k + 1 implies !stores_local(#[trigger] stmts[j], l.0 as int) by {
            if j > 0 {
                assert(stmts[j] == rest[j - 1]);
            }
        }
    }
}

/// No report without a cause: where every block but the entry block has
/// a predecessor and the predecessor lists agree with the jumps, a local
/// reported in block `b` is used there by a statement with no store into
/// it before, and some path from the entry block reaches `b` without a
/// store into it.
pub proof fn lemma_reported_use_has_path(f: AmirFunc, b: int, l: LocalId)
    requires
        cfg_ok(f),
        edges_agree(f),
        preds_nonempty(f),
        0 <= b < f.blocks@.len(),
        l.0 < f.locals@.len(),
        stmt_reports(f.blocks@[b].statements@, flow_entry_facts(f)[b]).contains(l),
    ensures
        uninit_on_entry(f, b, l.0 as int),
        exists|k: int|
            0 <= k < f.blocks@[b].statements@.len() && used_local(#[trigger] f.blocks@[b].statements@[k]) == Some(l)
                && forall|j: int|
                0 <= j < k ==> !stores_local(#[trigger] f.blocks@[b].statements@[j], l.0 as int),
{
    let n = f.blocks@.len();
    let init = flow_init(f);
    assert forall|bb: int| 0 <= bb < n implies (#[trigger] init.1[bb]).len() == f.locals@.len() by {}
    assert forall|bb: int| 0 <= bb < n implies (#[trigger] init.2[bb]).len() == f.locals@.len() by {}
    assert forall|i: int| 0 <= i < init.0.len() implies 0 <= (#[trigger] init.0[i]).0 < n by {
        assert(f.blocks@[i].id.0 == i);
    }
    lemma_flow_run_witnessed(f, init, (n * n + 10) as nat);
    let fin = flow_run(f, init, (n * n + 10) as nat);
    assert(flow_entry_facts(f) == fin.1);
    lemma_report_has_use(f.blocks@[b].statements@, fin.1[b], l);
    assert(!fin.1[b][l.0 as int]);
}


/// Whether `s` stores into local `l` itself: a store whose place has no
/// projection.
pub open spec fn is_plain_store(s: AmirStmt, l: int) -> bool {
    s matches AmirStmt::Store { lhs } && !lhs.projected && lhs.local.0 == l
}

/// Only a store into the local itself initialises it: a block none of
/// whose statements stores into `l` without a projection does not count
/// `l` as initialised at its end, whatever stores it makes through
/// fields or indices of `l`.
pub proof fn lemma_gen_needs_plain_store(f: AmirFunc, b: int, l: int)
    requires
        0 <= b < f.blocks@.len(),
        0 <= l < f.locals@.len(),
        forall|k: int|
            0 <= k < f.blocks@[b].statements@.len() ==> !is_plain_store(#[trigger] f.blocks@[b].statements@[k], l),
    ensures
        !block_gen(f, b)[l],
{
    assert forall|k: int| 0 <= k < f.blocks@[b].statements@.len() implies !stores_local(
        #[trigger] f.blocks@[b].statements@[k],
        l,
    ) by {
        assert(!is_plain_store(f.blocks@[b].statements@[k], l));
    }
}

/// Within a block, while a local is not initialised every statement that
/// uses it is reported: a run of statements that each read, borrow or
/// write through a projection of `l` gives one report of `l` per
/// statement, since none of them initialises it.
pub proof fn lemma_each_use_reported(stmts: Seq<AmirStmt>, cur: Seq<bool>, l: LocalId)
    requires
        l.0 < cur.len(),
        !cur[l.0 as int],
        forall|k: int| 0 <= k < stmts.len() ==> used_local(#[trigger] stmts[k]) == Some(l),
    ensures
        stmt_reports(stmts, cur) == Seq::new(stmts.len(), |i: int| l),
    decreases stmts.len(),
{
    if stmts.len() > 0 {
        let s0 = stmts[0];
        assert(used_local(s0) == Some(l));
        let next = apply_stmt(s0, cur);
        assert(next == cur) by {
            match s0 {
                AmirStmt::Store { lhs } => {
                    assert(lhs.projected);
                },
                _ => {},
            }
        }
        let rest = stmts.drop_first();
        assert forall|k: int| 0 <= k < rest.len() implies used_local(#[trigger] rest[k]) == Some(l) by {
            assert(rest[k] == stmts[k + 1]);
        }
        lemma_each_use_reported(rest, cur, l);
        assert(stmt_reports(stmts, cur) =~= Seq::new(stmts.len(), |i: int| l));
    }
}

} // verus!
