//! Liveness of SSA registers: each register lives from its first definition
//! to its last use, over the program points of the function in block order
//! (each operation is one point, each terminator another).

use vstd::prelude::*;
use crate::ir::{op_def, IrReg, Operand, IrOp, IrOpV, Terminator, TerminatorV, BasicBlock, BasicBlockV, FunctionIr,
    FunctionIrV, ops_view, blocks_view};

verus! {

/// The live range `[start, end]` of a register, in program points.
#[derive(Debug, Clone, Copy, PartialEq, Eq, Structural)]
pub struct LiveInterval {
    pub reg: IrReg,
    pub start: usize,
    pub end: usize,
}

pub open spec fn operand_regs(o: Operand) -> Seq<IrReg> {
    match o {
        Operand::Reg(r) => seq![r],
        Operand::Imm(_) => seq![],
    }
}

/// The registers of the first `n` operands.
pub open spec fn operands_regs(args: Seq<Operand>, n: int) -> Seq<IrReg>
    decreases n,
{
    if n <= 0 || n > args.len() {
        seq![]
    } else {
        operands_regs(args, n - 1) + operand_regs(args[n - 1])
    }
}

/// The registers an operation reads, in operand order.
pub open spec fn op_uses(op: IrOpV) -> Seq<IrReg> {
    match op {
        IrOpV::Store { ptr, value } => seq![ptr] + operand_regs(value),
        IrOpV::VolatileStore { ptr, value } => seq![ptr] + operand_regs(value),
        IrOpV::Load { ptr, .. } => seq![ptr],
        IrOpV::VolatileLoad { ptr, .. } => seq![ptr],
        IrOpV::Free { ptr } => seq![ptr],
        IrOpV::Add { lhs, rhs, .. } => operand_regs(lhs) + operand_regs(rhs),
        IrOpV::Call { args, .. } => operands_regs(args, args.len() as int),
        _ => seq![],
    }
}

/// The registers a terminator reads.
pub open spec fn term_uses(t: TerminatorV) -> Seq<IrReg> {
    match t {
        TerminatorV::BranchIf { cond, .. } => seq![cond],
        TerminatorV::Return(Some(Operand::Reg(r))) => seq![r],
        _ => seq![],
    }
}

/// A program point: the register it defines and the registers it reads.
pub type PointV = (Option<IrReg>, Seq<IrReg>);

/// The points of a block: one per operation, then one for the terminator.
pub open spec fn block_points(b: BasicBlockV) -> Seq<PointV> {
    Seq::new(b.instructions.len(), |i: int| (op_def(b.instructions[i]), op_uses(b.instructions[i]))).push(
        (None, term_uses(b.terminator)),
    )
}

/// The points of the first `n` blocks, in order.
pub open spec fn blocks_points(bs: Seq<BasicBlockV>, n: int) -> Seq<PointV>
    decreases n,
{
    if n <= 0 || n > bs.len() {
        seq![]
    } else {
        blocks_points(bs, n - 1) + block_points(bs[n - 1])
    }
}

pub open spec fn function_points(f: FunctionIrV) -> Seq<PointV> {
    blocks_points(f.blocks, f.blocks.len() as int)
}

/// The registers first defined among the first `k` points, with the point of
/// their first definition, in order of that point.
pub open spec fn first_defs(pts: Seq<PointV>, k: int) -> Seq<(IrReg, int)>
    decreases k,
{
    if k <= 0 || k > pts.len() {
        seq![]
    } else {
        let prev = first_defs(pts, k - 1);
        match pts[k - 1].0 {
            Some(r) => if defined_before(pts, r, k - 1) {
                prev
            } else {
                prev.push((r, k - 1))
            },
            None => prev,
        }
    }
}

/// Some point before `k` defines `r`.
pub open spec fn defined_before(pts: Seq<PointV>, r: IrReg, k: int) -> bool {
    exists|p: int| 0 <= p < k && p < pts.len() && #[trigger] pts[p].0 == Some(r)
}

/// The last point before `k` that reads `r`, if any.
pub open spec fn last_use_before(pts: Seq<PointV>, r: IrReg, k: int) -> Option<int>
    decreases k,
{
    if k <= 0 || k > pts.len() {
        None
    } else if pts[k - 1].1.contains(r) {
        Some(k - 1)
    } else {
        last_use_before(pts, r, k - 1)
    }
}

/// The interval of `r` first defined at `start`: it ends at the last use,
/// but never before `start`.
pub open spec fn interval_of(pts: Seq<PointV>, r: IrReg, start: int) -> (IrReg, int, int) {
    match last_use_before(pts, r, pts.len() as int) {
        Some(u) => if u > start {
            (r, start, u)
        } else {
            (r, start, start)
        },
        None => (r, start, start),
    }
}

/// The live intervals of a function, in order of their start points.
pub open spec fn live_intervals(f: FunctionIrV) -> Seq<(IrReg, int, int)> {
    let pts = function_points(f);
    let defs = first_defs(pts, pts.len() as int);
    Seq::new(defs.len(), |i: int| interval_of(pts, defs[i].0, defs[i].1))
}

/// The value of an exec list of intervals.
pub open spec fn intervals_view(v: Seq<LiveInterval>) -> Seq<(IrReg, int, int)> {
    Seq::new(v.len(), |i: int| (v[i].reg, v[i].start as int, v[i].end as int))
}

/// The register that `op` defines, if any.
fn get_instruction_def(op: &IrOp) -> (r: Option<IrReg>)
    ensures
        r == op_def(op@),
{
    match op {
        IrOp::AssignImm { dest, .. } => Some(*dest),
        IrOp::Alloc { dest, .. } => Some(*dest),
        IrOp::Load { dest, .. } => Some(*dest),
        IrOp::VolatileLoad { dest, .. } => Some(*dest),
        IrOp::Add { dest, .. } => Some(*dest),
        IrOp::Call { dest, .. } => *dest,
        IrOp::Store { .. } | IrOp::VolatileStore { .. } | IrOp::Free { .. } => None,
    }
}

fn push_operand_reg(uses: &mut Vec<IrReg>, o: &Operand)
    ensures
        final(uses)@ == old(uses)@ + operand_regs(*o),
{
    if let Operand::Reg(r) = o {
        uses.push(*r);
    }
    assert(uses@ =~= old(uses)@ + operand_regs(*o));
}

/// The registers that `op` reads, in operand order.
fn get_instruction_uses(op: &IrOp) -> (r: Vec<IrReg>)
    ensures
        r@ == op_uses(op@),
{
    let mut uses: Vec<IrReg> = Vec::new();
    match op {
        IrOp::Store { ptr, value } | IrOp::VolatileStore { ptr, value } => {
            uses.push(*ptr);
            push_operand_reg(&mut uses, value);
        },
        IrOp::Load { ptr, .. } | IrOp::VolatileLoad { ptr, .. } | IrOp::Free { ptr } => {
            uses.push(*ptr);
        },
        IrOp::Add { lhs, rhs, .. } => {
            push_operand_reg(&mut uses, lhs);
            push_operand_reg(&mut uses, rhs);
        },
        IrOp::Call { args, .. } => {
            let mut k: usize = 0;
            while k < args.len()
                invariant
                    k <= args@.len(),
                    uses@ == operands_regs(args@, k as int),
                decreases args@.len() - k,
            {
                push_operand_reg(&mut uses, &args[k]);
                k += 1;
            }
        },
        IrOp::AssignImm { .. } | IrOp::Alloc { .. } => {},
    }
    assert(uses@ =~= op_uses(op@));
    uses
}

/// The registers that `term` reads.
fn get_terminator_uses(term: &Terminator) -> (r: Vec<IrReg>)
    ensures
        r@ == term_uses(term@),
{
    let mut uses: Vec<IrReg> = Vec::new();
    match term {
        Terminator::BranchIf { cond, .. } => uses.push(*cond),
        Terminator::Return(Some(Operand::Reg(r))) => uses.push(*r),
        _ => {},
    }
    assert(uses@ =~= term_uses(term@));
    uses
}


/// The points given by their definitions and their uses.
pub open spec fn points_of(defs: Seq<Option<IrReg>>, uses: Seq<Vec<IrReg>>) -> Seq<PointV> {
    Seq::new(defs.len(), |p: int| (defs[p], uses[p]@))
}

proof fn lemma_points_push(defs: Seq<Option<IrReg>>, uses: Seq<Vec<IrReg>>, d: Option<IrReg>, u: Vec<IrReg>)
    requires
        defs.len() == uses.len(),
    ensures
        points_of(defs.push(d), uses.push(u)) == points_of(defs, uses).push((d, u@)),
{
    assert(points_of(defs.push(d), uses.push(u)) =~= points_of(defs, uses).push((d, u@)));
}

fn reads_reg(uses: &Vec<IrReg>, r: IrReg) -> (b: bool)
    ensures
        b == uses@.contains(r),
{
    let mut k: usize = 0;
    while k < uses.len()
        invariant
            k <= uses@.len(),
            forall|m: int| 0 <= m < k ==> uses@[m] != r,
        decreases uses@.len() - k,
    {
        if uses[k] == r {
            return true;
        }
        k += 1;
    }
    false
}

/// The program points of a function: what each defines and what each reads.
fn collect_points(func: &FunctionIr) -> (r: (Vec<Option<IrReg>>, Vec<Vec<IrReg>>))
    ensures
        r.0@.len() == r.1@.len(),
        points_of(r.0@, r.1@) == function_points(func@),
{
    let ghost bs = func@.blocks;
    let mut defs: Vec<Option<IrReg>> = Vec::new();
    let mut uses: Vec<Vec<IrReg>> = Vec::new();
    let mut i: usize = 0;
    assert(points_of(defs@, uses@) =~= blocks_points(bs, 0));
    while i < func.blocks.len()
        invariant
            i <= func.blocks@.len(),
            bs == func@.blocks,
            defs@.len() == uses@.len(),
            points_of(defs@, uses@) == blocks_points(bs, i as int),
        decreases func.blocks@.len() - i,
    {
        let block = &func.blocks[i];
        let ghost b = bs[i as int];
        let ghost base = points_of(defs@, uses@);
        let mut k: usize = 0;
        while k < block.instructions.len()
            invariant
                k <= block.instructions@.len(),
                b == block@,
                defs@.len() == uses@.len(),
                points_of(defs@, uses@) == base + Seq::new(
                    k as nat,
                    |m: int| (op_def(b.instructions[m]), op_uses(b.instructions[m])),
                ),
            decreases block.instructions@.len() - k,
        {
            let d = get_instruction_def(&block.instructions[k]);
            let u = get_instruction_uses(&block.instructions[k]);
            proof {
                lemma_points_push(defs@, uses@, d, u);
                assert(b.instructions[k as int] == block.instructions@[k as int]@);
            }
            defs.push(d);
            uses.push(u);
            assert(points_of(defs@, uses@) =~= base + Seq::new(
                (k + 1) as nat,
                |m: int| (op_def(b.instructions[m]), op_uses(b.instructions[m])),
            ));
            k += 1;
        }
        let tu = get_terminator_uses(&block.terminator);
        proof {
            lemma_points_push(defs@, uses@, None, tu);
            assert(Seq::new(
                block.instructions@.len() as nat,
                |m: int| (op_def(b.instructions[m]), op_uses(b.instructions[m])),
            ) =~= Seq::new(b.instructions.len(), |m: int| (op_def(b.instructions[m]), op_uses(b.instructions[m]))));
        }
        defs.push(None);
        uses.push(tu);
        assert(points_of(defs@, uses@) =~= base + block_points(b));
        assert(blocks_points(bs, i + 1) == blocks_points(bs, i as int) + block_points(bs[i as int]));
        i += 1;
    }
    (defs, uses)
}

/// The live intervals of all registers of the function, in order of their
/// start points: a register lives from its first definition to its last use
/// (or only at its definition, if it is never read after it).
pub fn compute_live_intervals(func: &FunctionIr) -> (r: Vec<LiveInterval>)
    ensures
        intervals_view(r@) == live_intervals(func@),
{
    let (defs, uses) = collect_points(func);
    let ghost pts = points_of(defs@, uses@);
    let n = defs.len();
    // Registers in order of first definition.
    let mut firsts: Vec<(IrReg, usize)> = Vec::new();
    let mut p: usize = 0;
    while p < n
        invariant
            p <= n,
            n == defs@.len(),
            defs@.len() == uses@.len(),
            pts == points_of(defs@, uses@),
            Seq::new(firsts@.len(), |i: int| (firsts@[i].0, firsts@[i].1 as int)) == first_defs(pts, p as int),
        decreases n - p,
    {
        let ghost prev = firsts@;
        if let Some(r) = defs[p] {
            let mut q: usize = 0;
            let mut seen = false;
            while q < p
                invariant
                    q <= p < n,
                    n == defs@.len(),
                    pts == points_of(defs@, uses@),
                    seen == exists|m: int| 0 <= m < q && #[trigger] defs@[m] == Some(r),
                decreases p - q,
            {
                if let Some(r2) = defs[q] {
                    if r2 == r {
                        seen = true;
                    }
                }
                q += 1;
            }
            proof {
                if seen {
                    let m = choose|m: int| 0 <= m < q && #[trigger] defs@[m] == Some(r);
                    assert(pts[m].0 == Some(r));
                }
                if defined_before(pts, r, p as int) {
                    let m = choose|m: int| 0 <= m < p && m < pts.len() && #[trigger] pts[m].0 == Some(r);
                    assert(defs@[m] == Some(r));
                }
            }
            assert(seen == defined_before(pts, r, p as int));
            if !seen {
                firsts.push((r, p));
            }
        }
        assert(Seq::new(firsts@.len(), |i: int| (firsts@[i].0, firsts@[i].1 as int)) =~= first_defs(pts, p + 1));
        p += 1;
    }
    let ghost defs_spec = first_defs(pts, n as int);
    let mut out: Vec<LiveInterval> = Vec::new();
    let mut i: usize = 0;
    while i < firsts.len()
        invariant
            i <= firsts@.len(),
            n == defs@.len(),
            defs@.len() == uses@.len(),
            pts == points_of(defs@, uses@),
            pts == function_points(func@),
            Seq::new(firsts@.len(), |j: int| (firsts@[j].0, firsts@[j].1 as int)) == defs_spec,
            defs_spec == first_defs(pts, pts.len() as int),
            intervals_view(out@) == Seq::new(i as nat, |j: int| interval_of(pts, defs_spec[j].0, defs_spec[j].1)),
        decreases firsts@.len() - i,
    {
        let (r, start) = firsts[i];
        assert(defs_spec[i as int] == (r, start as int));
        // The last point that reads r.
        let mut k: usize = n;
        while k > 0 && !reads_reg(&uses[k - 1], r)
            invariant
                k <= n,
                n == pts.len(),
                n == uses@.len(),
                pts == points_of(defs@, uses@),
                last_use_before(pts, r, n as int) == last_use_before(pts, r, k as int),
            decreases k,
        {
            assert(pts[k - 1].1 == uses@[k - 1]@);
            k -= 1;
        }
        let last: Option<usize> = if k > 0 {
            assert(pts[k - 1].1 == uses@[k - 1]@);
            assert(last_use_before(pts, r, k as int) == Some((k - 1) as int));
            Some(k - 1)
        } else {
            None
        };
        let end = match last {
            Some(u) => if u > start { u } else { start },
            None => start,
        };
        assert(interval_of(pts, r, start as int) == (r, start as int, end as int));
        let ghost ov = out@;
        out.push(LiveInterval { reg: r, start, end });
        assert(intervals_view(out@) =~= intervals_view(ov).push((r, start as int, end as int)));
        assert(intervals_view(out@) =~= Seq::new((i + 1) as nat, |j: int| interval_of(pts, defs_spec[j].0, defs_spec[j].1)));
        i += 1;
    }
    assert(intervals_view(out@) =~= live_intervals(func@));
    out
}


proof fn lemma_first_defs(pts: Seq<PointV>, k: int)
    requires
        0 <= k <= pts.len(),
    ensures
        forall|a: int|
            0 <= a < first_defs(pts, k).len() ==> 0 <= (#[trigger] first_defs(pts, k)[a]).1 < k
                && pts[first_defs(pts, k)[a].1].0 == Some(first_defs(pts, k)[a].0)
                && !defined_before(pts, first_defs(pts, k)[a].0, first_defs(pts, k)[a].1),
        forall|a: int, b: int|
            0 <= a < b < first_defs(pts, k).len() ==> (#[trigger] first_defs(pts, k)[a]).1 < (
            #[trigger] first_defs(pts, k)[b]).1,
        forall|p: int|
            0 <= p < k && (#[trigger] pts[p]).0 is Some ==> exists|a: int|
                0 <= a < first_defs(pts, k).len() && (#[trigger] first_defs(pts, k)[a]).0 == pts[p].0->Some_0,
    decreases k,
{
    if k > 0 {
        lemma_first_defs(pts, k - 1);
        let prev = first_defs(pts, k - 1);
        let d = first_defs(pts, k);
        assert forall|p: int| 0 <= p < k && (#[trigger] pts[p]).0 is Some implies exists|a: int|
            0 <= a < d.len() && (#[trigger] d[a]).0 == pts[p].0->Some_0 by {
            let r = pts[p].0->Some_0;
            if p < k - 1 {
                let a = choose|a: int| 0 <= a < prev.len() && (#[trigger] prev[a]).0 == r;
                assert(d[a] == prev[a]);
            } else if defined_before(pts, r, k - 1) {
                let q = choose|q: int| 0 <= q < k - 1 && q < pts.len() && #[trigger] pts[q].0 == Some(r);
                let a = choose|a: int| 0 <= a < prev.len() && (#[trigger] prev[a]).0 == r;
                assert(d[a] == prev[a]);
            } else {
                assert(d[prev.len() as int].0 == r);
            }
        }
    }
}

proof fn lemma_last_use(pts: Seq<PointV>, r: IrReg, k: int)
    requires
        0 <= k <= pts.len(),
    ensures
        last_use_before(pts, r, k) matches Some(u) ==> 0 <= u < k && pts[u].1.contains(r) && forall|q: int|
            u < q < k ==> !(#[trigger] pts[q].1).contains(r),
        last_use_before(pts, r, k) is None ==> forall|q: int| 0 <= q < k ==> !(#[trigger] pts[q].1).contains(r),
    decreases k,
{
    if k > 0 {
        lemma_last_use(pts, r, k - 1);
    }
}

/// The intervals of the registers first defined among points `pts`.
pub open spec fn intervals_of_points(pts: Seq<PointV>) -> Seq<(IrReg, int, int)> {
    let defs = first_defs(pts, pts.len() as int);
    Seq::new(defs.len(), |i: int| interval_of(pts, defs[i].0, defs[i].1))
}

/// The facts of the live intervals, stated over the points of a function.
pub open spec fn intervals_sound(pts: Seq<PointV>, iv: Seq<(IrReg, int, int)>) -> bool {
    &&& forall|a: int, b: int| 0 <= a < b < iv.len() ==> (#[trigger] iv[a]).1 < (#[trigger] iv[b]).1
    &&& forall|a: int| 0 <= a < iv.len() ==> interval_sound(pts, #[trigger] iv[a])
    &&& forall|a: int, b: int| 0 <= a < b < iv.len() ==> (#[trigger] iv[a]).0 != (#[trigger] iv[b]).0
    &&& forall|p: int|
        0 <= p < pts.len() && (#[trigger] pts[p]).0 is Some ==> exists|a: int|
            0 <= a < iv.len() && (#[trigger] iv[a]).0 == pts[p].0->Some_0
}

/// The facts of one interval of `intervals_of_points`.
pub open spec fn interval_sound(pts: Seq<PointV>, x: (IrReg, int, int)) -> bool {
    &&& 0 <= x.1 <= x.2 < pts.len()
    &&& pts[x.1].0 == Some(x.0)
    &&& !defined_before(pts, x.0, x.1)
    &&& forall|q: int| x.1 <= q < pts.len() && (#[trigger] pts[q].1).contains(x.0) ==> q <= x.2
}

proof fn lemma_interval_at(pts: Seq<PointV>, a: int)
    requires
        0 <= a < intervals_of_points(pts).len(),
    ensures
        interval_sound(pts, intervals_of_points(pts)[a]),
{
    let n = pts.len() as int;
    let defs = first_defs(pts, n);
    lemma_first_defs(pts, n);
    assert(defs[a] == defs[a]);
    lemma_last_use(pts, defs[a].0, n);
}

proof fn lemma_intervals_ordered(pts: Seq<PointV>, a: int, b: int)
    requires
        0 <= a < b < intervals_of_points(pts).len(),
    ensures
        intervals_of_points(pts)[a].1 < intervals_of_points(pts)[b].1,
        intervals_of_points(pts)[a].0 != intervals_of_points(pts)[b].0,
{
    let n = pts.len() as int;
    let defs = first_defs(pts, n);
    lemma_first_defs(pts, n);
    assert(defs[a] == defs[a] && defs[b] == defs[b]);
    if defs[a].0 == defs[b].0 {
        assert(pts[defs[a].1].0 == Some(defs[b].0));
        assert(defined_before(pts, defs[b].0, defs[b].1));
    }
}

proof fn lemma_intervals_complete(pts: Seq<PointV>, p: int)
    requires
        0 <= p < pts.len(),
        pts[p].0 is Some,
    ensures
        exists|a: int| 0 <= a < intervals_of_points(pts).len() && (#[trigger] intervals_of_points(pts)[a]).0 == pts[p].0->Some_0,
{
    let n = pts.len() as int;
    let defs = first_defs(pts, n);
    lemma_first_defs(pts, n);
    let r = pts[p].0->Some_0;
    assert(pts[p] == pts[p]);
    let a = choose|a: int| 0 <= a < defs.len() && (#[trigger] defs[a]).0 == r;
    assert(intervals_of_points(pts)[a].0 == r);
}

proof fn lemma_intervals_of_points(pts: Seq<PointV>)
    ensures
        intervals_sound(pts, intervals_of_points(pts)),
{
    let iv = intervals_of_points(pts);
    assert forall|a: int| 0 <= a < iv.len() implies interval_sound(pts, #[trigger] iv[a]) by {
        lemma_interval_at(pts, a);
    }
    assert forall|a: int, b: int| 0 <= a < b < iv.len() implies (#[trigger] iv[a]).0 != (#[trigger] iv[b]).0
        && iv[a].1 < iv[b].1 by {
        lemma_intervals_ordered(pts, a, b);
    }
    assert forall|p: int| 0 <= p < pts.len() && (#[trigger] pts[p]).0 is Some implies exists|a: int|
        0 <= a < iv.len() && (#[trigger] iv[a]).0 == pts[p].0->Some_0 by {
        lemma_intervals_complete(pts, p);
    }
}

/// The live intervals are strictly ordered by their start points. Each starts
/// at the first definition of its register and ends no earlier, at a point of
/// the function; it covers every later point that reads the register. No
/// register has two intervals, and every register the function defines has one.
pub proof fn lemma_live_intervals_sound(f: FunctionIrV)
    ensures
        intervals_sound(function_points(f), live_intervals(f)),
{
    lemma_intervals_of_points(function_points(f));
    assert(live_intervals(f) == intervals_of_points(function_points(f)));
}

/// Whether the operation reads register `r`: the pointer and the stored
/// value of a store, the pointer of a load or a free, either operand of an
/// add, any argument of a call.
pub open spec fn op_reads(op: IrOpV, r: IrReg) -> bool {
    match op {
        IrOpV::Store { ptr, value } => ptr == r || value == Operand::Reg(r),
        IrOpV::VolatileStore { ptr, value } => ptr == r || value == Operand::Reg(r),
        IrOpV::Load { ptr, .. } => ptr == r,
        IrOpV::VolatileLoad { ptr, .. } => ptr == r,
        IrOpV::Free { ptr } => ptr == r,
        IrOpV::Add { lhs, rhs, .. } => lhs == Operand::Reg(r) || rhs == Operand::Reg(r),
        IrOpV::Call { args, .. } => args.contains(Operand::Reg(r)),
        _ => false,
    }
}

/// Whether the terminator reads register `r`.
pub open spec fn term_reads(t: TerminatorV, r: IrReg) -> bool {
    match t {
        TerminatorV::BranchIf { cond, .. } => cond == r,
        TerminatorV::Return(Some(o)) => o == Operand::Reg(r),
        _ => false,
    }
}

/// The steps of a block in order: each operation, then the terminator
/// (`None` in the first place), each with the block's terminator.
pub open spec fn block_steps(b: BasicBlockV) -> Seq<(Option<IrOpV>, TerminatorV)> {
    Seq::new(b.instructions.len(), |i: int| (Some(b.instructions[i]), b.terminator)).push((None, b.terminator))
}

/// The steps of the first `n` blocks, in order.
pub open spec fn blocks_steps(bs: Seq<BasicBlockV>, n: int) -> Seq<(Option<IrOpV>, TerminatorV)>
    decreases n,
{
    if n <= 0 || n > bs.len() {
        seq![]
    } else {
        blocks_steps(bs, n - 1) + block_steps(bs[n - 1])
    }
}

/// Whether the step reads register `r`.
pub open spec fn step_reads(st: (Option<IrOpV>, TerminatorV), r: IrReg) -> bool {
    match st.0 {
        Some(op) => op_reads(op, r),
        None => term_reads(st.1, r),
    }
}

proof fn lemma_operands_regs_contains(args: Seq<Operand>, n: int, r: IrReg)
    requires
        0 <= n <= args.len(),
    ensures
        (exists|k: int| 0 <= k < n && args[k] == Operand::Reg(r)) ==> operands_regs(args, n).contains(r),
    decreases n,
{
    if n > 0 {
        lemma_operands_regs_contains(args, n - 1, r);
        if exists|k: int| 0 <= k < n && args[k] == Operand::Reg(r) {
            let k = choose|k: int| 0 <= k < n && args[k] == Operand::Reg(r);
            let pre = operands_regs(args, n - 1);
            let last = operand_regs(args[n - 1]);
            if k == n - 1 {
                assert((pre + last)[pre.len() as int] == r);
            } else {
                let w = choose|w: int| 0 <= w < pre.len() && pre[w] == r;
                assert((pre + last)[w] == r);
            }
        }
    }
}

proof fn lemma_reads_are_uses(st: (Option<IrOpV>, TerminatorV), r: IrReg)
    ensures
        step_reads(st, r) ==> match st.0 {
            Some(op) => op_uses(op).contains(r),
            None => term_uses(st.1).contains(r),
        },
{
    if step_reads(st, r) {
        match st.0 {
            Some(op) => {
                match op {
                    IrOpV::Store { ptr, value } => {
                        if ptr == r {
                            assert(op_uses(op)[0] == r);
                        } else {
                            assert(op_uses(op)[1] == r);
                        }
                    },
                    IrOpV::VolatileStore { ptr, value } => {
                        if ptr == r {
                            assert(op_uses(op)[0] == r);
                        } else {
                            assert(op_uses(op)[1] == r);
                        }
                    },
                    IrOpV::Load { ptr, .. } => assert(op_uses(op)[0] == r),
                    IrOpV::VolatileLoad { ptr, .. } => assert(op_uses(op)[0] == r),
                    IrOpV::Free { ptr } => assert(op_uses(op)[0] == r),
                    IrOpV::Add { lhs, rhs, .. } => {
                        if lhs == Operand::Reg(r) {
                            assert(op_uses(op)[0] == r);
                        } else {
                            assert(op_uses(op)[operand_regs(lhs).len() as int] == r);
                        }
                    },
                    IrOpV::Call { args, .. } => {
                        let k = choose|k: int| 0 <= k < args.len() && args[k] == Operand::Reg(r);
                        lemma_operands_regs_contains(args, args.len() as int, r);
                    },
                    _ => {},
                }
            },
            None => {
                assert(term_uses(st.1)[0] == r);
            },
        }
    }
}

proof fn lemma_steps_match_points(bs: Seq<BasicBlockV>, n: int)
    requires
        0 <= n <= bs.len(),
    ensures
        blocks_steps(bs, n).len() == blocks_points(bs, n).len(),
        forall|p: int|
            0 <= p < blocks_steps(bs, n).len() ==> match (#[trigger] blocks_steps(bs, n)[p]).0 {
                Some(op) => blocks_points(bs, n)[p].1 == op_uses(op),
                None => blocks_points(bs, n)[p].1 == term_uses(blocks_steps(bs, n)[p].1),
            },
    decreases n,
{
    if n > 0 {
        lemma_steps_match_points(bs, n - 1);
        let s0 = blocks_steps(bs, n - 1);
        let p0 = blocks_points(bs, n - 1);
        let b = bs[n - 1];
        let sb = block_steps(b);
        let pb = block_points(b);
        assert forall|p: int| 0 <= p < blocks_steps(bs, n).len() implies match (#[trigger] blocks_steps(bs, n)[p]).0 {
            Some(op) => blocks_points(bs, n)[p].1 == op_uses(op),
            None => blocks_points(bs, n)[p].1 == term_uses(blocks_steps(bs, n)[p].1),
        } by {
            if p < s0.len() {
                assert(blocks_steps(bs, n)[p] == s0[p]);
                assert(blocks_points(bs, n)[p] == p0[p]);
            } else {
                let q = p - s0.len();
                assert(blocks_steps(bs, n)[p] == sb[q]);
                assert(blocks_points(bs, n)[p] == pb[q]);
            }
        }
    }
}

/// Every register that a step of the function reads (the stored value of a
/// store included) is live there: if its interval starts at or before that
/// step, it ends at or after it.
pub proof fn lemma_reads_are_covered(f: FunctionIrV)
    ensures
        blocks_steps(f.blocks, f.blocks.len() as int).len() == function_points(f).len(),
        forall|p: int, a: int|
            0 <= p < blocks_steps(f.blocks, f.blocks.len() as int).len() && 0 <= a < live_intervals(f).len()
                && step_reads(#[trigger] blocks_steps(f.blocks, f.blocks.len() as int)[p], (#[trigger] live_intervals(f)[a]).0)
                && live_intervals(f)[a].1 <= p ==> p <= live_intervals(f)[a].2,
{
    let steps = blocks_steps(f.blocks, f.blocks.len() as int);
    let pts = function_points(f);
    let iv = live_intervals(f);
    lemma_steps_match_points(f.blocks, f.blocks.len() as int);
    lemma_live_intervals_sound(f);
    assert forall|p: int, a: int|
        0 <= p < steps.len() && 0 <= a < iv.len() && step_reads(#[trigger] steps[p], (#[trigger] iv[a]).0)
            && iv[a].1 <= p implies p <= iv[a].2 by {
        lemma_reads_are_uses(steps[p], iv[a].0);
        assert(interval_sound(pts, iv[a]));
        assert(pts[p].1.contains(iv[a].0));
    }
}

} // verus!
