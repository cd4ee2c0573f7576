//! Linear-scan register allocation: intervals are visited by start point;
//! those that ended before the current start free their registers; when no
//! register is free, the interval that ends last among the current one and
//! the active ones goes to a stack slot.

use vstd::prelude::*;
use vstd::string::*;
use vstd::multiset::Multiset;
use crate::ir::IrReg;
use crate::liveness::LiveInterval;
use crate::text::{decimal, push_decimal};

verus! {

broadcast use vstd::string::group_string_axioms;

/// The general-purpose registers of x86-64 that the allocator hands out.
#[derive(Debug, Clone, Copy, PartialEq, Eq, Hash, Structural)]
pub enum PhysReg {
    Rax,
    Rcx,
    Rdx,
    Rsi,
    Rdi,
    R8,
    R9,
    R10,
    R11,
}

/// Where a virtual register lives: a physical register or a stack slot.
#[derive(Debug, Clone, Copy, PartialEq, Eq, Structural)]
pub enum RegLocation {
    Reg(PhysReg),
    Spill(usize),
}

/// The result of an allocation: the location of each virtual register, and
/// the number of stack slots used.
#[derive(Debug, Clone)]
pub struct RegAssignment {
    pub mapping: Vec<(IrReg, RegLocation)>,
    pub num_spills: usize,
}

/// The state of a linear scan.
pub struct AllocState {
    pub avail: Seq<PhysReg>,
    pub active: Seq<(LiveInterval, PhysReg)>,
    pub mapping: Seq<(IrReg, RegLocation)>,
    pub next_spill: nat,
}

/// Inserts `x` after every interval that starts no later than it.
pub open spec fn insert_by_start(v: Seq<LiveInterval>, x: LiveInterval) -> Seq<LiveInterval>
    decreases v.len(),
{
    if v.len() == 0 {
        seq![x]
    } else if v.last().start <= x.start {
        v.push(x)
    } else {
        insert_by_start(v.drop_last(), x).push(v.last())
    }
}

/// The intervals ordered by start point; intervals with the same start keep
/// their order (a stable sort).
pub open spec fn sort_by_start(v: Seq<LiveInterval>) -> Seq<LiveInterval>
    decreases v.len(),
{
    if v.len() == 0 {
        seq![]
    } else {
        insert_by_start(sort_by_start(v.drop_last()), v.last())
    }
}

/// Inserts an active interval after every one that ends no later than it.
pub open spec fn insert_by_end(v: Seq<(LiveInterval, PhysReg)>, x: (LiveInterval, PhysReg)) -> Seq<(LiveInterval, PhysReg)>
    decreases v.len(),
{
    if v.len() == 0 {
        seq![x]
    } else if v.last().0.end <= x.0.end {
        v.push(x)
    } else {
        insert_by_end(v.drop_last(), x).push(v.last())
    }
}

/// Removes the active intervals that end before `start`, in order, each
/// register put back at the front of the free list.
pub open spec fn expire(active: Seq<(LiveInterval, PhysReg)>, avail: Seq<PhysReg>, start: usize) -> (Seq<(LiveInterval, PhysReg)>, Seq<PhysReg>)
    decreases active.len(),
{
    if active.len() == 0 {
        (seq![], avail)
    } else if active[0].0.end < start {
        expire(active.drop_first(), seq![active[0].1] + avail, start)
    } else {
        let (a, v) = expire(active.drop_first(), avail, start);
        (seq![active[0]] + a, v)
    }
}

pub open spec fn map_index_from(m: Seq<(IrReg, RegLocation)>, r: IrReg, k: int) -> Option<int>
    decreases m.len() - k,
{
    if k < 0 || k >= m.len() {
        None
    } else if m[k].0 == r {
        Some(k)
    } else {
        map_index_from(m, r, k + 1)
    }
}

/// Sets the location of `r` (adding `r` if it is new).
pub open spec fn map_set(m: Seq<(IrReg, RegLocation)>, r: IrReg, loc: RegLocation) -> Seq<(IrReg, RegLocation)> {
    match map_index_from(m, r, 0) {
        Some(k) => m.update(k, (r, loc)),
        None => m.push((r, loc)),
    }
}

/// With no free register: if the active interval that ends last ends after
/// `x`, it goes to the next stack slot and `x` takes its register; else `x`
/// goes to the next stack slot.
pub open spec fn spill_at(st: AllocState, x: LiveInterval) -> AllocState {
    if st.active.len() > 0 && st.active.last().0.end > x.end {
        let (spilled, phys) = st.active.last();
        AllocState {
            mapping: map_set(map_set(st.mapping, spilled.reg, RegLocation::Spill(st.next_spill as usize)), x.reg, RegLocation::Reg(phys)),
            active: insert_by_end(st.active.drop_last(), (x, phys)),
            next_spill: st.next_spill + 1,
            ..st
        }
    } else {
        AllocState {
            mapping: map_set(st.mapping, x.reg, RegLocation::Spill(st.next_spill as usize)),
            next_spill: st.next_spill + 1,
            ..st
        }
    }
}

/// One step of the scan, for the interval `x`.
pub open spec fn alloc_step(st: AllocState, x: LiveInterval) -> AllocState {
    let (active, avail) = expire(st.active, st.avail, x.start);
    let st1 = AllocState { active, avail, ..st };
    if avail.len() == 0 {
        spill_at(st1, x)
    } else {
        AllocState {
            avail: avail.drop_first(),
            mapping: map_set(st1.mapping, x.reg, RegLocation::Reg(avail[0])),
            active: insert_by_end(active, (x, avail[0])),
            ..st1
        }
    }
}

/// The scan over the first `n` intervals of `xs`.
pub open spec fn alloc_run(st: AllocState, xs: Seq<LiveInterval>, n: int) -> AllocState
    decreases n,
{
    if n <= 0 || n > xs.len() {
        st
    } else {
        alloc_step(alloc_run(st, xs, n - 1), xs[n - 1])
    }
}

/// The state of an allocator over a pool: all registers free, in pool order.
pub open spec fn initial_alloc(pool: Seq<PhysReg>) -> AllocState {
    AllocState { avail: pool, active: seq![], mapping: seq![], next_spill: 0 }
}

/// The allocation of `intervals` from the state `st`: the mapping and the
/// number of spill slots.
pub open spec fn allocation_from(st: AllocState, intervals: Seq<LiveInterval>) -> (Seq<(IrReg, RegLocation)>, nat) {
    let xs = sort_by_start(intervals);
    let fin = alloc_run(st, xs, xs.len() as int);
    (fin.mapping, fin.next_spill)
}

/// The allocation of `intervals` over the registers of `pool`.
pub open spec fn allocation(pool: Seq<PhysReg>, intervals: Seq<LiveInterval>) -> (Seq<(IrReg, RegLocation)>, nat) {
    allocation_from(initial_alloc(pool), intervals)
}

impl View for RegAssignment {
    type V = (Seq<(IrReg, RegLocation)>, nat);

    open spec fn view(&self) -> (Seq<(IrReg, RegLocation)>, nat) {
        (self.mapping@, self.num_spills as nat)
    }
}


proof fn lemma_insert_by_start_at(v: Seq<LiveInterval>, x: LiveInterval, pos: int)
    requires
        0 <= pos <= v.len(),
        forall|k: int| pos <= k < v.len() ==> v[k].start > x.start,
        pos == 0 || v[pos - 1].start <= x.start,
    ensures
        insert_by_start(v, x) == v.take(pos).push(x) + v.skip(pos),
    decreases v.len(),
{
    if v.len() == 0 {
        assert(v.take(pos).push(x) + v.skip(pos) =~= seq![x]);
    } else if pos == v.len() {
        assert(v.take(pos).push(x) + v.skip(pos) =~= v.push(x));
    } else {
        lemma_insert_by_start_at(v.drop_last(), x, pos);
        assert(v.drop_last().take(pos).push(x) + v.drop_last().skip(pos) + seq![v.last()] =~= v.take(pos).push(x)
            + v.skip(pos));
        assert((v.drop_last().take(pos).push(x) + v.drop_last().skip(pos)).push(v.last()) =~= v.drop_last().take(
            pos,
        ).push(x) + v.drop_last().skip(pos) + seq![v.last()]);
    }
}

proof fn lemma_insert_by_end_at(v: Seq<(LiveInterval, PhysReg)>, x: (LiveInterval, PhysReg), pos: int)
    requires
        0 <= pos <= v.len(),
        forall|k: int| pos <= k < v.len() ==> v[k].0.end > x.0.end,
        pos == 0 || v[pos - 1].0.end <= x.0.end,
    ensures
        insert_by_end(v, x) == v.take(pos).push(x) + v.skip(pos),
    decreases v.len(),
{
    if v.len() == 0 {
        assert(v.take(pos).push(x) + v.skip(pos) =~= seq![x]);
    } else if pos == v.len() {
        assert(v.take(pos).push(x) + v.skip(pos) =~= v.push(x));
    } else {
        lemma_insert_by_end_at(v.drop_last(), x, pos);
        assert((v.drop_last().take(pos).push(x) + v.drop_last().skip(pos)).push(v.last()) =~= v.take(pos).push(x)
            + v.skip(pos));
    }
}

/// Inserts `x` into `v` after every interval that starts no later than it.
fn insert_sorted_by_start(v: &mut Vec<LiveInterval>, x: LiveInterval)
    ensures
        final(v)@ == insert_by_start(old(v)@, x),
{
    let mut pos: usize = v.len();
    while pos > 0 && v[pos - 1].start > x.start
        invariant
            pos <= v@.len(),
            v@ == old(v)@,
            forall|k: int| pos <= k < v@.len() ==> v@[k].start > x.start,
        decreases pos,
    {
        pos -= 1;
    }
    proof {
        lemma_insert_by_start_at(v@, x, pos as int);
        assert(v@.insert(pos as int, x) =~= v@.take(pos as int).push(x) + v@.skip(pos as int));
    }
    v.insert(pos, x);
}

/// Inserts an active interval after every one that ends no later than it.
fn insert_sorted_by_end(v: &mut Vec<(LiveInterval, PhysReg)>, x: (LiveInterval, PhysReg))
    ensures
        final(v)@ == insert_by_end(old(v)@, x),
{
    let mut pos: usize = v.len();
    while pos > 0 && v[pos - 1].0.end > x.0.end
        invariant
            pos <= v@.len(),
            v@ == old(v)@,
            forall|k: int| pos <= k < v@.len() ==> v@[k].0.end > x.0.end,
        decreases pos,
    {
        pos -= 1;
    }
    proof {
        lemma_insert_by_end_at(v@, x, pos as int);
        assert(v@.insert(pos as int, x) =~= v@.take(pos as int).push(x) + v@.skip(pos as int));
    }
    v.insert(pos, x);
}

/// The intervals in order of start, equal starts in their input order.
fn sort_intervals(v: &Vec<LiveInterval>) -> (r: Vec<LiveInterval>)
    ensures
        r@ == sort_by_start(v@),
{
    let mut out: Vec<LiveInterval> = Vec::new();
    let mut i: usize = 0;
    assert(v@.take(0) =~= seq![]);
    while i < v.len()
        invariant
            i <= v@.len(),
            out@ == sort_by_start(v@.take(i as int)),
        decreases v@.len() - i,
    {
        assert(v@.take(i + 1).drop_last() =~= v@.take(i as int));
        insert_sorted_by_start(&mut out, v[i]);
        i += 1;
    }
    assert(v@.take(v@.len() as int) =~= v@);
    out
}

fn map_set_exec(m: &mut Vec<(IrReg, RegLocation)>, r: IrReg, loc: RegLocation)
    ensures
        final(m)@ == map_set(old(m)@, r, loc),
{
    let mut k: usize = 0;
    while k < m.len()
        invariant
            k <= m@.len(),
            m@ == old(m)@,
            map_index_from(m@, r, 0) == map_index_from(m@, r, k as int),
        decreases m@.len() - k,
    {
        if m[k].0 == r {
            m.set(k, (r, loc));
            return;
        }
        k += 1;
    }
    m.push((r, loc));
}

/// A linear-scan register allocator over a pool of physical registers.
pub struct LinearScanAllocator {
    available_regs: Vec<PhysReg>,
    active: Vec<(LiveInterval, PhysReg)>,
    mapping: Vec<(IrReg, RegLocation)>,
    next_spill_slot: usize,
}

impl View for LinearScanAllocator {
    type V = AllocState;

    closed spec fn view(&self) -> AllocState {
        AllocState {
            avail: self.available_regs@,
            active: self.active@,
            mapping: self.mapping@,
            next_spill: self.next_spill_slot as nat,
        }
    }
}

/// The registers of the default pool, in the order they are handed out.
pub open spec fn x86_64_pool() -> Seq<PhysReg> {
    seq![
        PhysReg::Rax,
        PhysReg::Rcx,
        PhysReg::Rdx,
        PhysReg::Rsi,
        PhysReg::Rdi,
        PhysReg::R8,
        PhysReg::R9,
        PhysReg::R10,
        PhysReg::R11,
    ]
}

impl LinearScanAllocator {
    /// An allocator whose free registers are those of `pool`, in order.
    pub fn new(pool: &[PhysReg]) -> (r: Self)
        ensures
            r@ == initial_alloc(pool@),
    {
        let mut regs: Vec<PhysReg> = Vec::new();
        let mut i: usize = 0;
        while i < pool.len()
            invariant
                i <= pool@.len(),
                regs@ == pool@.take(i as int),
            decreases pool@.len() - i,
        {
            regs.push(pool[i]);
            assert(regs@ =~= pool@.take(i + 1));
            i += 1;
        }
        assert(pool@.take(pool@.len() as int) =~= pool@);
        let r = Self { available_regs: regs, active: Vec::new(), mapping: Vec::new(), next_spill_slot: 0 };
        assert(r@.active =~= seq![]);
        assert(r@.mapping =~= seq![]);
        r
    }

    /// An allocator over rax, rcx, rdx, rsi, rdi, r8, r9, r10, r11.
    pub fn default_x86_64() -> (r: Self)
        ensures
            r@ == initial_alloc(x86_64_pool()),
    {
        let pool = [
            PhysReg::Rax,
            PhysReg::Rcx,
            PhysReg::Rdx,
            PhysReg::Rsi,
            PhysReg::Rdi,
            PhysReg::R8,
            PhysReg::R9,
            PhysReg::R10,
            PhysReg::R11,
        ];
        let r = Self::new(&pool);
        assert(pool@ =~= x86_64_pool());
        r
    }

    /// Frees the registers of the active intervals that end before `current_start`.
    fn expire_old_intervals(&mut self, current_start: usize)
        ensures
            (final(self)@.active, final(self)@.avail) == expire(old(self)@.active, old(self)@.avail, current_start),
            final(self)@.mapping == old(self)@.mapping,
            final(self)@.next_spill == old(self)@.next_spill,
    {
        let mut i: usize = 0;
        proof {
            assert(self.active@.skip(0) =~= self.active@);
            let (a, v) = expire(self.active@, self.available_regs@, current_start);
            assert(self.active@.take(0) + a =~= a);
        }
        while i < self.active.len()
            invariant
                i <= self.active@.len(),
                self.mapping@ == old(self)@.mapping,
                self.next_spill_slot == old(self).next_spill_slot,
                expire(old(self)@.active, old(self)@.avail, current_start) == ({
                    let (a, v) = expire(self.active@.skip(i as int), self.available_regs@, current_start);
                    (self.active@.take(i as int) + a, v)
                }),
            decreases self.active@.len() - i,
        {
            let ghost oa = self.active@;
            let ghost ov = self.available_regs@;
            assert(oa.skip(i as int)[0] == oa[i as int]);
            assert(oa.skip(i as int).drop_first() =~= oa.skip(i + 1));
            if self.active[i].0.end < current_start {
                let (_, phys) = self.active.remove(i);
                self.available_regs.insert(0, phys);
                assert(self.active@.take(i as int) =~= oa.take(i as int));
                assert(self.active@.skip(i as int) =~= oa.skip(i + 1));
                assert(self.available_regs@ =~= seq![phys] + ov);
            } else {
                assert(oa.take(i + 1) =~= oa.take(i as int).push(oa[i as int]));
                let ghost (a, v) = expire(oa.skip(i + 1), ov, current_start);
                assert(oa.take(i as int) + (seq![oa[i as int]] + a) =~= oa.take(i + 1) + a);
                i += 1;
            }
        }
        assert(self.active@.skip(i as int) =~= seq![]);
        assert(self.active@.take(i as int) + seq![] =~= self.active@);
    }

    /// With no free register: the active interval that ends last goes to the
    /// stack if it ends after `interval` (which takes its register), else
    /// `interval` goes to the stack.
    fn spill_at_interval(&mut self, interval: LiveInterval)
        requires
            old(self).next_spill_slot < usize::MAX,
        ensures
            final(self)@ == spill_at(old(self)@, interval),
    {
        if self.active.len() > 0 && self.active[self.active.len() - 1].0.end > interval.end {
            let (spilled_interval, stolen_phys) = self.active.pop().unwrap();
            let spill_slot = self.next_spill_slot;
            self.next_spill_slot += 1;
            map_set_exec(&mut self.mapping, spilled_interval.reg, RegLocation::Spill(spill_slot));
            map_set_exec(&mut self.mapping, interval.reg, RegLocation::Reg(stolen_phys));
            insert_sorted_by_end(&mut self.active, (interval, stolen_phys));
            return;
        }
        let spill_slot = self.next_spill_slot;
        self.next_spill_slot += 1;
        map_set_exec(&mut self.mapping, interval.reg, RegLocation::Spill(spill_slot));
    }

    /// Allocates every interval, in order of start: the location of each
    /// register and the number of stack slots used.
    pub fn allocate(self, intervals: Vec<LiveInterval>) -> (r: RegAssignment)
        requires
            self@.next_spill + intervals@.len() <= usize::MAX,
        ensures
            r@ == allocation_from(self@, intervals@),
    {
        let mut a = self;
        let xs = sort_intervals(&intervals);
        let ghost st0 = a@;
        proof {
            lemma_sort_len(intervals@);
        }
        let mut i: usize = 0;
        while i < xs.len()
            invariant
                i <= xs@.len(),
                xs@ == sort_by_start(intervals@),
                xs@.len() == intervals@.len(),
                st0 == self@,
                a@ == alloc_run(st0, xs@, i as int),
                a@.next_spill <= st0.next_spill + i,
                st0.next_spill + intervals@.len() <= usize::MAX,
            decreases xs@.len() - i,
        {
            let interval = xs[i];
            a.expire_old_intervals(interval.start);
            if a.available_regs.len() == 0 {
                a.spill_at_interval(interval);
            } else {
                let phys = a.available_regs.remove(0);
                map_set_exec(&mut a.mapping, interval.reg, RegLocation::Reg(phys));
                insert_sorted_by_end(&mut a.active, (interval, phys));
            }
            i += 1;
        }
        RegAssignment { mapping: a.mapping, num_spills: a.next_spill_slot }
    }
}

proof fn lemma_insert_len(v: Seq<LiveInterval>, x: LiveInterval)
    ensures
        insert_by_start(v, x).len() == v.len() + 1,
    decreases v.len(),
{
    if v.len() > 0 && v.last().start > x.start {
        lemma_insert_len(v.drop_last(), x);
    }
}

/// Sorting keeps the number of intervals.
pub proof fn lemma_sort_len(v: Seq<LiveInterval>)
    ensures
        sort_by_start(v).len() == v.len(),
    decreases v.len(),
{
    if v.len() > 0 {
        lemma_sort_len(v.drop_last());
        lemma_insert_len(sort_by_start(v.drop_last()), v.last());
    }
}


/// The location recorded for `r`, if any.
pub open spec fn location_of(m: Seq<(IrReg, RegLocation)>, r: IrReg) -> Option<RegLocation> {
    match map_index_from(m, r, 0) {
        Some(k) => Some(m[k].1),
        None => None,
    }
}

impl RegAssignment {
    /// The location of the virtual register `reg`, if it was allocated.
    pub fn get(&self, reg: IrReg) -> (r: Option<RegLocation>)
        ensures
            r == location_of(self.mapping@, reg),
    {
        let mut k: usize = 0;
        while k < self.mapping.len()
            invariant
                k <= self.mapping@.len(),
                map_index_from(self.mapping@, reg, 0) == map_index_from(self.mapping@, reg, k as int),
            decreases self.mapping@.len() - k,
        {
            if self.mapping[k].0 == reg {
                return Some(self.mapping[k].1);
            }
            k += 1;
        }
        None
    }

    /// The locations of all allocated registers, in the order of the mapping.
    pub fn locations(&self) -> (r: Vec<RegLocation>)
        ensures
            r@ == self.mapping@.map_values(|e: (IrReg, RegLocation)| e.1),
    {
        let mut out: Vec<RegLocation> = Vec::new();
        let mut k: usize = 0;
        while k < self.mapping.len()
            invariant
                k <= self.mapping@.len(),
                out@ == self.mapping@.take(k as int).map_values(|e: (IrReg, RegLocation)| e.1),
            decreases self.mapping@.len() - k,
        {
            out.push(self.mapping[k].1);
            assert(out@ =~= self.mapping@.take(k + 1).map_values(|e: (IrReg, RegLocation)| e.1));
            k += 1;
        }
        assert(self.mapping@.take(k as int) =~= self.mapping@);
        out
    }
}

/// The assembler name of a physical register.
pub open spec fn phys_reg_text(r: PhysReg) -> Seq<char> {
    match r {
        PhysReg::Rax => "rax"@,
        PhysReg::Rcx => "rcx"@,
        PhysReg::Rdx => "rdx"@,
        PhysReg::Rsi => "rsi"@,
        PhysReg::Rdi => "rdi"@,
        PhysReg::R8 => "r8"@,
        PhysReg::R9 => "r9"@,
        PhysReg::R10 => "r10"@,
        PhysReg::R11 => "r11"@,
    }
}

/// A register's name, or `[stack_spill #n]`.
pub open spec fn location_text(l: RegLocation) -> Seq<char> {
    match l {
        RegLocation::Reg(r) => phys_reg_text(r),
        RegLocation::Spill(n) => "[stack_spill #"@ + decimal(n as nat) + "]"@,
    }
}

impl PhysReg {
    /// The assembler name of the register.
    pub fn name(&self) -> (r: &'static str)
        ensures
            r@ == phys_reg_text(*self),
    {
        match self {
            PhysReg::Rax => "rax",
            PhysReg::Rcx => "rcx",
            PhysReg::Rdx => "rdx",
            PhysReg::Rsi => "rsi",
            PhysReg::Rdi => "rdi",
            PhysReg::R8 => "r8",
            PhysReg::R9 => "r9",
            PhysReg::R10 => "r10",
            PhysReg::R11 => "r11",
        }
    }

    pub fn to_text(&self) -> (r: String)
        ensures
            r@ == phys_reg_text(*self),
    {
        String::from_str(self.name())
    }
}

impl RegLocation {
    pub fn to_text(&self) -> (r: String)
        ensures
            r@ == location_text(*self),
    {
        match self {
            RegLocation::Reg(p) => p.to_text(),
            RegLocation::Spill(n) => {
                let mut s = String::from_str("[stack_spill #");
                push_decimal(&mut s, *n as u64);
                s.append("]");
                s
            },
        }
    }
}


// ---------------------------------------------------------------------------
// Laws of the allocation
// ---------------------------------------------------------------------------

proof fn lemma_map_index_some(m: Seq<(IrReg, RegLocation)>, r: IrReg, k: int)
    requires
        0 <= k,
    ensures
        map_index_from(m, r, k) matches Some(i) ==> k <= i < m.len() && m[i].0 == r && forall|j: int|
            k <= j < i ==> m[j].0 != r,
        map_index_from(m, r, k) is None ==> forall|j: int| k <= j < m.len() ==> m[j].0 != r,
    decreases m.len() - k,
{
    if k < m.len() && m[k].0 != r {
        lemma_map_index_some(m, r, k + 1);
    }
}

proof fn lemma_map_index_char(m: Seq<(IrReg, RegLocation)>, r: IrReg, k: int, i: int)
    requires
        0 <= k <= i < m.len(),
        m[i].0 == r,
        forall|j: int| k <= j < i ==> m[j].0 != r,
    ensures
        map_index_from(m, r, k) == Some(i),
    decreases i - k,
{
    if k < i {
        lemma_map_index_char(m, r, k + 1, i);
    }
}

proof fn lemma_map_index_none(m: Seq<(IrReg, RegLocation)>, r: IrReg, k: int)
    requires
        0 <= k,
        forall|j: int| k <= j < m.len() ==> m[j].0 != r,
    ensures
        map_index_from(m, r, k) is None,
    decreases m.len() - k,
{
    if k < m.len() {
        lemma_map_index_none(m, r, k + 1);
    }
}

/// What a lookup gives back after a write: the location just set for that
/// register, and the old location for any other.
pub proof fn lemma_map_set_location(m: Seq<(IrReg, RegLocation)>, r: IrReg, l: RegLocation, r2: IrReg)
    ensures
        location_of(map_set(m, r, l), r2) == if r2 == r {
            Some(l)
        } else {
            location_of(m, r2)
        },
{
    lemma_map_index_some(m, r, 0);
    lemma_map_index_some(m, r2, 0);
    let m2 = map_set(m, r, l);
    match map_index_from(m, r, 0) {
        Some(i) => {
            assert(forall|j: int| 0 <= j < m.len() ==> m2[j].0 == m[j].0);
            if r2 == r {
                lemma_map_index_char(m2, r2, 0, i);
            } else {
                match map_index_from(m, r2, 0) {
                    Some(i2) => lemma_map_index_char(m2, r2, 0, i2),
                    None => lemma_map_index_none(m2, r2, 0),
                }
            }
        },
        None => {
            if r2 == r {
                lemma_map_index_char(m2, r2, 0, m.len() as int);
            } else {
                match map_index_from(m, r2, 0) {
                    Some(i2) => lemma_map_index_char(m2, r2, 0, i2),
                    None => lemma_map_index_none(m2, r2, 0),
                }
            }
        },
    }
}

/// The physical registers of the active intervals.
pub open spec fn active_regs(a: Seq<(LiveInterval, PhysReg)>) -> Seq<PhysReg> {
    a.map_values(|e: (LiveInterval, PhysReg)| e.1)
}

/// The registers the scan holds: the free ones and those of the active intervals.
pub open spec fn held(st: AllocState) -> Multiset<PhysReg> {
    st.avail.to_multiset().add(active_regs(st.active).to_multiset())
}

proof fn lemma_active_regs_push(a: Seq<(LiveInterval, PhysReg)>, x: (LiveInterval, PhysReg))
    ensures
        active_regs(a.push(x)) == active_regs(a).push(x.1),
{
    assert(active_regs(a.push(x)) =~= active_regs(a).push(x.1));
}

/// Inserting an active interval adds exactly it.
proof fn lemma_insert_by_end_props(v: Seq<(LiveInterval, PhysReg)>, x: (LiveInterval, PhysReg))
    ensures
        insert_by_end(v, x).len() == v.len() + 1,
        forall|e: (LiveInterval, PhysReg)| #[trigger] insert_by_end(v, x).contains(e) <==> (v.contains(e) || e == x),
        active_regs(insert_by_end(v, x)).to_multiset() == active_regs(v).to_multiset().insert(x.1),
    decreases v.len(),
{
    broadcast use vstd::seq_lib::group_to_multiset_ensures;

    if v.len() == 0 {
        assert(active_regs(seq![x]) =~= seq![].push(x.1));
        assert(active_regs(v) =~= seq![]);
        assert(insert_by_end(v, x) == seq![x]);
        assert forall|e: (LiveInterval, PhysReg)| #[trigger] insert_by_end(v, x).contains(e) <==> (v.contains(e) || e == x) by {
            if e == x {
                assert(seq![x][0] == x);
            }
        }
    } else if v.last().0.end <= x.0.end {
        lemma_active_regs_push(v, x);
        assert forall|e: (LiveInterval, PhysReg)| #[trigger] insert_by_end(v, x).contains(e) <==> (v.contains(e) || e == x) by {
            if v.contains(e) {
                let k = choose|k: int| 0 <= k < v.len() && v[k] == e;
                assert(v.push(x)[k] == e);
            }
            if e == x {
                assert(v.push(x)[v.len() as int] == x);
            }
        }
    } else {
        let w = v.drop_last();
        lemma_insert_by_end_props(w, x);
        lemma_active_regs_push(insert_by_end(w, x), v.last());
        lemma_active_regs_push(w, v.last());
        assert(w.push(v.last()) =~= v);
        assert forall|e: (LiveInterval, PhysReg)| #[trigger] insert_by_end(v, x).contains(e) <==> (v.contains(e) || e == x) by {
            let iw = insert_by_end(w, x);
            if v.contains(e) {
                let k = choose|k: int| 0 <= k < v.len() && v[k] == e;
                if k < w.len() {
                    assert(w[k] == e);
                    assert(iw.contains(e));
                    let k2 = choose|k2: int| 0 <= k2 < iw.len() && iw[k2] == e;
                    assert(iw.push(v.last())[k2] == e);
                } else {
                    assert(iw.push(v.last())[iw.len() as int] == e);
                }
            }
            if e == x {
                assert(iw.contains(x));
                let k2 = choose|k2: int| 0 <= k2 < iw.len() && iw[k2] == x;
                assert(iw.push(v.last())[k2] == x);
            }
            if insert_by_end(v, x).contains(e) {
                let k = choose|k: int| 0 <= k < iw.len() + 1 && iw.push(v.last())[k] == e;
                if k < iw.len() {
                    assert(iw[k] == e);
                    assert(iw.contains(e));
                    if e != x {
                        let k3 = choose|k3: int| 0 <= k3 < w.len() && w[k3] == e;
                        assert(v[k3] == e);
                    }
                } else {
                    assert(v[v.len() - 1] == e);
                }
            }
        }
    }
}


proof fn lemma_singleton_prepend_ms<A>(x: A, s: Seq<A>)
    ensures
        (seq![x] + s).to_multiset() == s.to_multiset().insert(x),
{
    broadcast use vstd::seq_lib::group_to_multiset_ensures;
    broadcast use vstd::multiset::group_multiset_axioms;

    vstd::seq_lib::lemma_multiset_commutative(seq![x], s);
    assert(seq![x] =~= Seq::<A>::empty().push(x));
    assert(Seq::<A>::empty().to_multiset() =~= Multiset::empty());
    assert((seq![x] + s).to_multiset() =~= s.to_multiset().insert(x));
}

/// Expiring keeps the active intervals that end at or after `s`, frees the
/// registers of the others, and keeps every register held.
proof fn lemma_expire_props(active: Seq<(LiveInterval, PhysReg)>, avail: Seq<PhysReg>, s: usize)
    ensures
        forall|e: (LiveInterval, PhysReg)| #[trigger] expire(active, avail, s).0.contains(e) ==> active.contains(e)
            && e.0.end >= s,
        forall|e: (LiveInterval, PhysReg)| active.contains(e) && e.0.end >= s ==> #[trigger] expire(active, avail, s).0.contains(e),
        expire(active, avail, s).1.to_multiset().add(active_regs(expire(active, avail, s).0).to_multiset())
            == avail.to_multiset().add(active_regs(active).to_multiset()),
    decreases active.len(),
{
    broadcast use vstd::seq_lib::group_to_multiset_ensures;
    broadcast use vstd::multiset::group_multiset_axioms;

    if active.len() == 0 {
        assert(active_regs(active) =~= seq![]);
        assert(active_regs(expire(active, avail, s).0) =~= seq![]);
    } else {
        let rest = active.drop_first();
        let e0 = active[0];
        assert(active =~= seq![e0] + rest);
        assert(active_regs(active) =~= seq![e0.1] + active_regs(rest));
        lemma_singleton_prepend_ms(e0.1, active_regs(rest));
        if e0.0.end < s {
            let av2 = seq![e0.1] + avail;
            lemma_expire_props(rest, av2, s);
            lemma_singleton_prepend_ms(e0.1, avail);
            let (a, w) = expire(rest, av2, s);
            assert(w.to_multiset().add(active_regs(a).to_multiset()) =~= avail.to_multiset().add(
                active_regs(active).to_multiset(),
            ));
            assert forall|e: (LiveInterval, PhysReg)| active.contains(e) && e.0.end >= s implies #[trigger] expire(active, avail, s).0.contains(e) by {
                let k = choose|k: int| 0 <= k < active.len() && active[k] == e;
                assert(k != 0);
                assert(rest[k - 1] == e);
            }
            assert forall|e: (LiveInterval, PhysReg)| #[trigger] expire(active, avail, s).0.contains(e) implies active.contains(e) && e.0.end >= s by {
                let k = choose|k: int| 0 <= k < rest.len() && rest[k] == e;
                assert(active[k + 1] == e);
            }
        } else {
            lemma_expire_props(rest, avail, s);
            let (a, w) = expire(rest, avail, s);
            assert(active_regs(seq![e0] + a) =~= seq![e0.1] + active_regs(a));
            lemma_singleton_prepend_ms(e0.1, active_regs(a));
            assert(active_regs(seq![e0] + a).to_multiset() == active_regs(a).to_multiset().insert(e0.1));
            assert(active_regs(active).to_multiset() == active_regs(rest).to_multiset().insert(e0.1));
            let xm = w.to_multiset();
            let ym = active_regs(a).to_multiset();
            let zm = avail.to_multiset();
            let rm = active_regs(rest).to_multiset();
            assert(xm.add(ym) == zm.add(rm));
            assert forall|v: PhysReg| #[trigger] xm.add(ym.insert(e0.1)).count(v) == zm.add(rm.insert(e0.1)).count(v) by {
                assert(xm.add(ym).count(v) == zm.add(rm).count(v));
            }
            assert(xm.add(ym.insert(e0.1)) =~= zm.add(rm.insert(e0.1)));
            assert(w.to_multiset().add(active_regs(seq![e0] + a).to_multiset()) =~= avail.to_multiset().add(
                active_regs(active).to_multiset(),
            ));
            assert forall|e: (LiveInterval, PhysReg)| active.contains(e) && e.0.end >= s implies #[trigger] expire(active, avail, s).0.contains(e) by {
                let k = choose|k: int| 0 <= k < active.len() && active[k] == e;
                if k == 0 {
                    assert((seq![e0] + a)[0] == e);
                } else {
                    assert(rest[k - 1] == e);
                    assert(rest.contains(e));
                    assert(a.contains(e));
                    let k2 = choose|k2: int| 0 <= k2 < a.len() && a[k2] == e;
                    assert((seq![e0] + a)[k2 + 1] == e);
                }
            }
            assert forall|e: (LiveInterval, PhysReg)| #[trigger] expire(active, avail, s).0.contains(e) implies active.contains(e) && e.0.end >= s by {
                let k = choose|k: int| 0 <= k < a.len() + 1 && (seq![e0] + a)[k] == e;
                if k == 0 {
                    assert(active[0] == e);
                } else {
                    assert(a[k - 1] == e);
                    assert(a.contains(e));
                    let k3 = choose|k3: int| 0 <= k3 < rest.len() && rest[k3] == e;
                    assert(active[k3 + 1] == e);
                }
            }
        }
    }
}


/// Two intervals share a point.
pub open spec fn overlap(a: LiveInterval, b: LiveInterval) -> bool {
    a.start <= b.end && b.start <= a.end
}

pub open spec fn sorted_by_start(xs: Seq<LiveInterval>) -> bool {
    forall|i: int, j: int| 0 <= i <= j < xs.len() ==> xs[i].start <= xs[j].start
}

/// Where `x` goes when inserted by start.
pub open spec fn insert_pos(w: Seq<LiveInterval>, x: LiveInterval) -> int
    decreases w.len(),
{
    if w.len() == 0 {
        0
    } else if w.last().start <= x.start {
        w.len() as int
    } else {
        insert_pos(w.drop_last(), x)
    }
}

proof fn lemma_insert_pos(w: Seq<LiveInterval>, x: LiveInterval)
    requires
        sorted_by_start(w),
    ensures
        0 <= insert_pos(w, x) <= w.len(),
        forall|k: int| insert_pos(w, x) <= k < w.len() ==> w[k].start > x.start,
        insert_pos(w, x) == 0 || w[insert_pos(w, x) - 1].start <= x.start,
        insert_by_start(w, x).len() == w.len() + 1,
        insert_by_start(w, x)[insert_pos(w, x)] == x,
        forall|i: int| 0 <= i < insert_pos(w, x) ==> #[trigger] insert_by_start(w, x)[i] == w[i],
        forall|i: int| insert_pos(w, x) < i <= w.len() ==> #[trigger] insert_by_start(w, x)[i] == w[i - 1],
        sorted_by_start(insert_by_start(w, x)),
    decreases w.len(),
{
    if w.len() > 0 && w.last().start > x.start {
        let w1 = w.drop_last();
        assert forall|i: int, j: int| 0 <= i <= j < w1.len() implies w1[i].start <= w1[j].start by {
            assert(w1[i] == w[i] && w1[j] == w[j]);
        }
        lemma_insert_pos(w1, x);
        assert forall|k: int| insert_pos(w, x) <= k < w.len() implies w[k].start > x.start by {
            if k < w.len() - 1 {
                assert(w1[k] == w[k]);
            }
        }
    }
    let p = insert_pos(w, x);
    lemma_insert_by_start_at(w, x, p);
    let r = insert_by_start(w, x);
    assert(r == w.take(p).push(x) + w.skip(p));
    assert(r.len() == w.len() + 1);
    assert(r[p] == x);
    assert forall|i: int| 0 <= i < p implies #[trigger] r[i] == w[i] by {}
    assert forall|i: int| p < i <= w.len() implies #[trigger] r[i] == w[i - 1] by {}
    assert forall|i: int, j: int| 0 <= i <= j < r.len() implies r[i].start <= r[j].start by {
        if i < p && j < p {
            assert(r[i] == w[i] && r[j] == w[j]);
        } else if i < p && j == p {
            assert(r[i] == w[i]);
        } else if i < p && j > p {
            assert(r[i] == w[i] && r[j] == w[j - 1]);
        } else if i == p && j > p {
            assert(r[j] == w[j - 1]);
        } else if i > p {
            assert(r[i] == w[i - 1]);
            assert(r[j] == w[j - 1]);
        }
    }
}

/// The sort gives a sorted sequence of the same length.
pub proof fn lemma_sort_sorted(v: Seq<LiveInterval>)
    ensures
        sorted_by_start(sort_by_start(v)),
        sort_by_start(v).len() == v.len(),
    decreases v.len(),
{
    lemma_sort_len(v);
    if v.len() > 0 {
        lemma_sort_sorted(v.drop_last());
        lemma_insert_pos(sort_by_start(v.drop_last()), v.last());
    }
}

/// Every element of the sorted sequence is an element of the input.
pub proof fn lemma_sort_from_input(v: Seq<LiveInterval>)
    ensures
        forall|k: int|
            #![trigger sort_by_start(v)[k]]
            0 <= k < v.len() ==> exists|m: int| #![trigger v[m]] 0 <= m < v.len() && sort_by_start(v)[k] == v[m],
    decreases v.len(),
{
    lemma_sort_len(v);
    if v.len() > 0 {
        let v1 = v.drop_last();
        let x = v.last();
        let w = sort_by_start(v1);
        lemma_sort_from_input(v1);
        lemma_sort_sorted(v1);
        lemma_insert_pos(w, x);
        let p = insert_pos(w, x);
        let r = sort_by_start(v);
        assert(r == insert_by_start(w, x));
        assert forall|k: int| #![trigger r[k]] 0 <= k < v.len() implies exists|m: int| #![trigger v[m]] 0 <= m < v.len() && r[k] == v[m] by {
            if k < p {
                assert(r[k] == w[k]);
                let m = choose|m: int| #![trigger v1[m]] 0 <= m < v1.len() && w[k] == v1[m];
                assert(v1[m] == v[m]);
            } else if k == p {
                assert(r[k] == v[v.len() - 1]);
            } else {
                assert(r[k] == w[k - 1]);
                let m = choose|m: int| #![trigger v1[m]] 0 <= m < v1.len() && w[k - 1] == v1[m];
                assert(v1[m] == v[m]);
            }
        }
    }
}

/// Every element of the input is in the sorted sequence.
pub proof fn lemma_sort_keeps_input(v: Seq<LiveInterval>)
    ensures
        forall|m: int|
            #![trigger v[m]]
            0 <= m < v.len() ==> exists|k: int|
                #![trigger sort_by_start(v)[k]]
                0 <= k < v.len() && sort_by_start(v)[k] == v[m],
    decreases v.len(),
{
    lemma_sort_len(v);
    if v.len() > 0 {
        let v1 = v.drop_last();
        let x = v.last();
        let w = sort_by_start(v1);
        lemma_sort_keeps_input(v1);
        lemma_sort_sorted(v1);
        lemma_insert_pos(w, x);
        let p = insert_pos(w, x);
        let r = sort_by_start(v);
        assert(r == insert_by_start(w, x));
        assert forall|m: int| #![trigger v[m]] 0 <= m < v.len() implies exists|k: int| #![trigger r[k]] 0 <= k < v.len() && r[k] == v[m] by {
            if m == v.len() - 1 {
                assert(r[p] == v[m]);
            } else {
                assert(v[m] == v1[m]);
                let k = choose|k: int| #![trigger w[k]] 0 <= k < v1.len() && w[k] == v1[m];
                if k < p {
                    assert(r[k] == v[m]);
                } else {
                    assert(r[k + 1] == v[m]);
                }
            }
        }
    }
}

/// A symmetric relation that holds between any two elements at distinct
/// positions still holds after sorting.
pub proof fn lemma_sort_pairwise(v: Seq<LiveInterval>, rel: spec_fn(LiveInterval, LiveInterval) -> bool)
    requires
        forall|a: LiveInterval, b: LiveInterval| #[trigger] rel(a, b) == rel(b, a),
        forall|i: int, j: int| 0 <= i < v.len() && 0 <= j < v.len() && i != j ==> #[trigger] rel(v[i], v[j]),
    ensures
        forall|i: int, j: int|
            0 <= i < v.len() && 0 <= j < v.len() && i != j ==> #[trigger] rel(sort_by_start(v)[i], sort_by_start(v)[j]),
    decreases v.len(),
{
    lemma_sort_len(v);
    if v.len() > 0 {
        let v1 = v.drop_last();
        let x = v.last();
        let w = sort_by_start(v1);
        assert forall|i: int, j: int| 0 <= i < v1.len() && 0 <= j < v1.len() && i != j implies #[trigger] rel(
            v1[i],
            v1[j],
        ) by {
            assert(v1[i] == v[i] && v1[j] == v[j]);
        }
        lemma_sort_pairwise(v1, rel);
        lemma_sort_sorted(v1);
        lemma_sort_from_input(v1);
        lemma_insert_pos(w, x);
        let p = insert_pos(w, x);
        let r = sort_by_start(v);
        assert(r == insert_by_start(w, x));
        assert forall|i: int| 0 <= i < r.len() && i != p implies #[trigger] rel(x, r[i]) by {
            let wi = if i < p {
                i
            } else {
                i - 1
            };
            let m = choose|m: int| 0 <= m < v1.len() && w[wi] == v1[m];
            assert(rel(v[v.len() - 1], v[m]));
        }
        assert forall|i: int, j: int|
            0 <= i < r.len() && 0 <= j < r.len() && i != j implies #[trigger] rel(r[i], r[j]) by {
            if i == p {
                assert(r[i] == x);
                assert(rel(x, r[j]));
            } else if j == p {
                assert(r[j] == x);
                assert(rel(x, r[i]));
                assert(rel(r[i], x) == rel(x, r[i]));
            } else {
                let wi = if i < p {
                    i
                } else {
                    i - 1
                };
                let wj = if j < p {
                    j
                } else {
                    j - 1
                };
                assert(rel(w[wi], w[wj]));
            }
        }
    }
}


/// What the scan keeps through the first `n` intervals of `xs`: it holds
/// exactly the registers of the pool, and each active interval is one of
/// those already visited.
pub open spec fn scan_inv(pool: Seq<PhysReg>, xs: Seq<LiveInterval>, n: int, st: AllocState) -> bool {
    &&& 0 <= n <= xs.len()
    &&& held(st) == pool.to_multiset()
    &&& forall|e: (LiveInterval, PhysReg)| #[trigger] st.active.contains(e) ==> exists|k: int|
        0 <= k < n && xs[k] == e.0
}

proof fn lemma_drop_last_contains<A>(s: Seq<A>, e: A)
    requires
        s.len() > 0,
        s.drop_last().contains(e),
    ensures
        s.contains(e),
{
    let k = choose|k: int| 0 <= k < s.drop_last().len() && s.drop_last()[k] == e;
    assert(s[k] == e);
}

/// The free registers and the active ones, after taking `p` from the front
/// of the free list and adding it to the active ones, are the same registers.
proof fn lemma_held_move_front(avail: Seq<PhysReg>, a1: Seq<(LiveInterval, PhysReg)>, a2: Seq<(LiveInterval, PhysReg)>)
    requires
        avail.len() > 0,
        active_regs(a2).to_multiset() == active_regs(a1).to_multiset().insert(avail[0]),
    ensures
        avail.drop_first().to_multiset().add(active_regs(a2).to_multiset()) == avail.to_multiset().add(
            active_regs(a1).to_multiset(),
        ),
{
    broadcast use vstd::multiset::group_multiset_axioms;

    assert(avail =~= seq![avail[0]] + avail.drop_first());
    lemma_singleton_prepend_ms(avail[0], avail.drop_first());
    let xm = avail.drop_first().to_multiset();
    let am = active_regs(a1).to_multiset();
    assert forall|v: PhysReg| #[trigger] xm.add(am.insert(avail[0])).count(v) == xm.insert(avail[0]).add(am).count(v) by {}
    assert(xm.add(am.insert(avail[0])) =~= xm.insert(avail[0]).add(am));
}

proof fn lemma_held_swap_last(a: Seq<(LiveInterval, PhysReg)>, x: LiveInterval)
    requires
        a.len() > 0,
    ensures
        active_regs(insert_by_end(a.drop_last(), (x, a.last().1))).to_multiset() == active_regs(a).to_multiset(),
{
    broadcast use vstd::seq_lib::group_to_multiset_ensures;

    lemma_insert_by_end_props(a.drop_last(), (x, a.last().1));
    lemma_active_regs_push(a.drop_last(), a.last());
    assert(a.drop_last().push(a.last()) =~= a);
}

/// One step of the scan keeps its invariant.
proof fn lemma_scan_step(pool: Seq<PhysReg>, xs: Seq<LiveInterval>, n: int, st: AllocState)
    requires
        scan_inv(pool, xs, n, st),
        n < xs.len(),
    ensures
        scan_inv(pool, xs, n + 1, alloc_step(st, xs[n])),
{
    let x = xs[n];
    lemma_expire_props(st.active, st.avail, x.start);
    let (active1, avail1) = expire(st.active, st.avail, x.start);
    let st1 = AllocState { active: active1, avail: avail1, ..st };
    assert(held(st1) == held(st));
    let st2 = alloc_step(st, x);
    if avail1.len() == 0 {
        if st1.active.len() > 0 && st1.active.last().0.end > x.end {
            let q = st1.active.last().1;
            lemma_held_swap_last(active1, x);
            lemma_insert_by_end_props(active1.drop_last(), (x, q));
            assert(held(st2) == held(st1));
            assert forall|e: (LiveInterval, PhysReg)| #[trigger] st2.active.contains(e) implies exists|k: int|
                0 <= k < n + 1 && xs[k] == e.0 by {
                if e != (x, q) {
                    lemma_drop_last_contains(active1, e);
                    assert(st.active.contains(e));
                    let k = choose|k: int| 0 <= k < n && xs[k] == e.0;
                } else {
                    assert(xs[n] == e.0);
                }
            }
        } else {
            assert forall|e: (LiveInterval, PhysReg)| #[trigger] st2.active.contains(e) implies exists|k: int|
                0 <= k < n + 1 && xs[k] == e.0 by {
                assert(st.active.contains(e));
                let k = choose|k: int| 0 <= k < n && xs[k] == e.0;
            }
        }
    } else {
        let p = avail1[0];
        lemma_insert_by_end_props(active1, (x, p));
        lemma_held_move_front(avail1, active1, insert_by_end(active1, (x, p)));
        assert(held(st2) == held(st1));
        assert forall|e: (LiveInterval, PhysReg)| #[trigger] st2.active.contains(e) implies exists|k: int|
            0 <= k < n + 1 && xs[k] == e.0 by {
            if e != (x, p) {
                assert(st.active.contains(e));
                let k = choose|k: int| 0 <= k < n && xs[k] == e.0;
            } else {
                assert(xs[n] == e.0);
            }
        }
    }
}


proof fn lemma_initial_scan_inv(pool: Seq<PhysReg>, xs: Seq<LiveInterval>)
    ensures
        scan_inv(pool, xs, 0, initial_alloc(pool)),
{
    broadcast use vstd::seq_lib::group_to_multiset_ensures;
    broadcast use vstd::multiset::group_multiset_axioms;

    let st = initial_alloc(pool);
    assert(active_regs(st.active) =~= seq![]);
    assert(active_regs(st.active).to_multiset() =~= Multiset::empty());
    assert(held(st) =~= pool.to_multiset());
}

/// A step for an interval that overlaps none of those before it, with a
/// non-empty pool, finds a free register.
proof fn lemma_step_no_spill(pool: Seq<PhysReg>, xs: Seq<LiveInterval>, n: int, st: AllocState)
    requires
        scan_inv(pool, xs, n, st),
        n < xs.len(),
        sorted_by_start(xs),
        pool.len() > 0,
        xs[n].start <= xs[n].end,
        forall|k: int| 0 <= k < n ==> !overlap(#[trigger] xs[k], xs[n]),
    ensures
        alloc_step(st, xs[n]).next_spill == st.next_spill,
{
    broadcast use vstd::seq_lib::group_to_multiset_ensures;
    broadcast use vstd::multiset::group_multiset_axioms;

    let x = xs[n];
    lemma_expire_props(st.active, st.avail, x.start);
    let (active1, avail1) = expire(st.active, st.avail, x.start);
    if active1.len() > 0 {
        let e = active1[0];
        assert(active1.contains(e));
        assert(st.active.contains(e));
        let k = choose|k: int| 0 <= k < n && xs[k] == e.0;
        assert(overlap(xs[k], xs[n]));
    }
    assert(active_regs(active1) =~= seq![]);
    assert(active_regs(active1).to_multiset() =~= Multiset::empty());
    assert(avail1.to_multiset() =~= pool.to_multiset());
    assert(avail1.to_multiset().len() == pool.to_multiset().len());
    assert(avail1.len() == pool.len());
}

proof fn lemma_run_no_spill(pool: Seq<PhysReg>, xs: Seq<LiveInterval>, n: int)
    requires
        0 <= n <= xs.len(),
        sorted_by_start(xs),
        pool.len() > 0,
        forall|k: int| 0 <= k < xs.len() ==> (#[trigger] xs[k]).start <= xs[k].end,
        forall|i: int, j: int| 0 <= i < xs.len() && 0 <= j < xs.len() && i != j ==> !overlap(#[trigger] xs[i], #[trigger] xs[j]),
    ensures
        scan_inv(pool, xs, n, alloc_run(initial_alloc(pool), xs, n)),
        alloc_run(initial_alloc(pool), xs, n).next_spill == 0,
    decreases n,
{
    if n == 0 {
        lemma_initial_scan_inv(pool, xs);
    } else {
        lemma_run_no_spill(pool, xs, n - 1);
        let st = alloc_run(initial_alloc(pool), xs, n - 1);
        lemma_scan_step(pool, xs, n - 1, st);
        assert forall|k: int| 0 <= k < n - 1 implies !overlap(#[trigger] xs[k], xs[n - 1]) by {
            assert(!overlap(xs[k], xs[n - 1]));
        }
        lemma_step_no_spill(pool, xs, n - 1, st);
    }
}

/// Intervals that pairwise share no point never need a stack slot, as long
/// as there is at least one register.
pub proof fn lemma_disjoint_intervals_never_spill(pool: Seq<PhysReg>, intervals: Seq<LiveInterval>)
    requires
        pool.len() > 0,
        forall|i: int| 0 <= i < intervals.len() ==> (#[trigger] intervals[i]).start <= intervals[i].end,
        forall|i: int, j: int|
            0 <= i < intervals.len() && 0 <= j < intervals.len() && i != j ==> !overlap(
                #[trigger] intervals[i],
                #[trigger] intervals[j],
            ),
    ensures
        allocation(pool, intervals).1 == 0,
{
    let xs = sort_by_start(intervals);
    lemma_sort_sorted(intervals);
    lemma_sort_from_input(intervals);
    let rel = |a: LiveInterval, b: LiveInterval| !overlap(a, b);
    assert forall|i: int, j: int| 0 <= i < intervals.len() && 0 <= j < intervals.len() && i != j implies #[trigger] rel(
        intervals[i],
        intervals[j],
    ) by {}
    lemma_sort_pairwise(intervals, rel);
    assert forall|k: int| 0 <= k < xs.len() implies (#[trigger] xs[k]).start <= xs[k].end by {
        let m = choose|m: int| #![trigger intervals[m]] 0 <= m < intervals.len() && xs[k] == intervals[m];
    }
    assert forall|i: int, j: int| 0 <= i < xs.len() && 0 <= j < xs.len() && i != j implies !overlap(
        #[trigger] xs[i],
        #[trigger] xs[j],
    ) by {
        assert(rel(xs[i], xs[j]));
    }
    lemma_run_no_spill(pool, xs, xs.len() as int);
}


/// A value at two positions occurs at least twice.
proof fn lemma_count_two<A>(s: Seq<A>, i: int, j: int)
    requires
        0 <= i < s.len(),
        0 <= j < s.len(),
        i != j,
        s[i] == s[j],
    ensures
        s.to_multiset().count(s[i]) >= 2,
{
    broadcast use vstd::seq_lib::group_to_multiset_ensures;
    broadcast use vstd::multiset::group_multiset_axioms;

    let r = s.remove(i);
    assert(r =~= s.subrange(0, i) + s.subrange(i + 1, s.len() as int));
    assert(r.len() == s.len() - 1);
    let jj = if j < i {
        j
    } else {
        j - 1
    };
    assert(r[jj] == s[j]);
    assert(r.contains(s[i]));
    assert(r.to_multiset().count(s[i]) > 0);
    assert(s.contains(s[i]));
    assert(s.to_multiset().count(s[i]) > 0);
    assert(r.to_multiset() =~= s.to_multiset().remove(s[i]));
    assert(s.to_multiset().remove(s[i]).count(s[i]) == s.to_multiset().count(s[i]) - 1);
}

/// The regions of registers in a scan are disjoint when the pool has no
/// duplicate: no register is both free and active, and no two active entries
/// share one.
proof fn lemma_held_unique(pool: Seq<PhysReg>, st: AllocState)
    requires
        pool.no_duplicates(),
        held(st) == pool.to_multiset(),
    ensures
        forall|p: PhysReg| !(st.avail.contains(p) && active_regs(st.active).contains(p)),
        forall|i: int, j: int|
            0 <= i < st.active.len() && 0 <= j < st.active.len() && i != j ==> st.active[i].1 != st.active[j].1,
{
    broadcast use vstd::seq_lib::group_to_multiset_ensures;
    broadcast use vstd::multiset::group_multiset_axioms;

    pool.lemma_multiset_has_no_duplicates();
    assert forall|p: PhysReg| !(st.avail.contains(p) && active_regs(st.active).contains(p)) by {
        if st.avail.contains(p) && active_regs(st.active).contains(p) {
            assert(held(st).count(p) >= 2);
            assert(pool.to_multiset().contains(p));
        }
    }
    assert forall|i: int, j: int|
        0 <= i < st.active.len() && 0 <= j < st.active.len() && i != j implies st.active[i].1 != st.active[j].1 by {
        if st.active[i].1 == st.active[j].1 {
            let ar = active_regs(st.active);
            lemma_count_two(ar, i, j);
            assert(held(st).count(ar[i]) >= 2);
            assert(pool.to_multiset().contains(ar[i]));
        }
    }
}

/// What the scan keeps of the mapping through the first `n` intervals of
/// `xs`: each active interval is at its register; every visited interval has
/// a location; a visited interval in a register is active in it or ended
/// before the last start; two visited intervals in one register share no point.
pub open spec fn scan_loc_inv(xs: Seq<LiveInterval>, n: int, st: AllocState) -> bool {
    &&& forall|e: (LiveInterval, PhysReg)| #[trigger] st.active.contains(e) ==> location_of(st.mapping, e.0.reg) == Some(
        RegLocation::Reg(e.1),
    )
    &&& forall|k: int| 0 <= k < n ==> (#[trigger] location_of(st.mapping, xs[k].reg)) is Some
    &&& forall|k: int|
        0 <= k < n ==> match #[trigger] location_of(st.mapping, xs[k].reg) {
            Some(RegLocation::Reg(p)) => st.active.contains((xs[k], p)) || xs[k].end < xs[n - 1].start,
            _ => true,
        }
    &&& forall|k1: int, k2: int|
        0 <= k1 < n && 0 <= k2 < n && k1 != k2 && same_register(
            #[trigger] location_of(st.mapping, xs[k1].reg),
            #[trigger] location_of(st.mapping, xs[k2].reg),
        ) ==> !overlap(xs[k1], xs[k2])
}

/// Two locations are the same physical register.
pub open spec fn same_register(a: Option<RegLocation>, b: Option<RegLocation>) -> bool {
    match (a, b) {
        (Some(RegLocation::Reg(p)), Some(RegLocation::Reg(q))) => p == q,
        _ => false,
    }
}

pub open spec fn distinct_regs(xs: Seq<LiveInterval>) -> bool {
    forall|i: int, j: int| 0 <= i < xs.len() && 0 <= j < xs.len() && i != j ==> (#[trigger] xs[i]).reg != (#[trigger] xs[j]).reg
}


proof fn lemma_contains_regs(a: Seq<(LiveInterval, PhysReg)>, e: (LiveInterval, PhysReg))
    requires
        a.contains(e),
    ensures
        active_regs(a).contains(e.1),
{
    let k = choose|k: int| 0 <= k < a.len() && a[k] == e;
    assert(active_regs(a)[k] == e.1);
}

/// One step of the scan keeps what it knows of the mapping.
proof fn lemma_scan_loc_step(pool: Seq<PhysReg>, xs: Seq<LiveInterval>, n: int, st: AllocState)
    requires
        scan_inv(pool, xs, n, st),
        scan_loc_inv(xs, n, st),
        n < xs.len(),
        sorted_by_start(xs),
        distinct_regs(xs),
        pool.no_duplicates(),
    ensures
        scan_loc_inv(xs, n + 1, alloc_step(st, xs[n])),
{
    let x = xs[n];
    lemma_expire_props(st.active, st.avail, x.start);
    let (a1, v1) = expire(st.active, st.avail, x.start);
    let st1 = AllocState { active: a1, avail: v1, ..st };
    assert(held(st1) == pool.to_multiset());
    lemma_held_unique(pool, st1);
    let st2 = alloc_step(st, x);
    let m0 = st.mapping;
    let m2 = st2.mapping;
    assert forall|k: int| 0 <= k < n implies xs[k].reg != x.reg by {
        assert(xs[k].reg != xs[n].reg);
    }
    if v1.len() > 0 {
        let p = v1[0];
        assert(v1.contains(p));
        lemma_insert_by_end_props(a1, (x, p));
        assert forall|r: IrReg| #[trigger] location_of(m2, r) == if r == x.reg {
            Some(RegLocation::Reg(p))
        } else {
            location_of(m0, r)
        } by {
            lemma_map_set_location(m0, x.reg, RegLocation::Reg(p), r);
        }
        // Active entries are where the mapping says.
        assert forall|e: (LiveInterval, PhysReg)| #[trigger] st2.active.contains(e) implies location_of(m2, e.0.reg)
            == Some(RegLocation::Reg(e.1)) by {
            if e != (x, p) {
                assert(st.active.contains(e));
                let k = choose|k: int| 0 <= k < n && xs[k] == e.0;
            }
        }
        assert forall|k: int| 0 <= k < n + 1 implies (#[trigger] location_of(m2, xs[k].reg)) is Some by {}
        assert forall|k: int| 0 <= k < n + 1 implies match #[trigger] location_of(m2, xs[k].reg) {
            Some(RegLocation::Reg(q)) => st2.active.contains((xs[k], q)) || xs[k].end < xs[n].start,
            _ => true,
        } by {
            if k < n {
                if let Some(RegLocation::Reg(q)) = location_of(m0, xs[k].reg) {
                    if st.active.contains((xs[k], q)) && xs[k].end >= x.start {
                        assert(a1.contains((xs[k], q)));
                    }
                    if n > 0 {
                        assert(xs[n - 1].start <= xs[n].start);
                    }
                }
            }
        }
        assert forall|k1: int, k2: int|
            0 <= k1 < n + 1 && 0 <= k2 < n + 1 && k1 != k2 && same_register(
                #[trigger] location_of(m2, xs[k1].reg),
                #[trigger] location_of(m2, xs[k2].reg),
            ) implies !overlap(xs[k1], xs[k2]) by {
            if k1 < n && k2 < n {
                assert(same_register(location_of(m0, xs[k1].reg), location_of(m0, xs[k2].reg)));
            } else {
                let k = if k1 < n {
                    k1
                } else {
                    k2
                };
                assert(location_of(m0, xs[k].reg) == Some(RegLocation::Reg(p)));
                if st.active.contains((xs[k], p)) && xs[k].end >= x.start {
                    assert(a1.contains((xs[k], p)));
                    lemma_contains_regs(a1, (xs[k], p));
                }
                if n > 0 {
                    assert(xs[n - 1].start <= xs[n].start);
                }
            }
        }
    } else if a1.len() > 0 && a1.last().0.end > x.end {
        let z = a1.last().0;
        let q = a1.last().1;
        let ns = st.next_spill;
        let last = a1.len() - 1;
        assert(a1[last] == (z, q));
        assert(a1.contains((z, q)));
        assert(st.active.contains((z, q)));
        let kz = choose|k: int| 0 <= k < n && xs[k] == z;
        let m1 = map_set(m0, z.reg, RegLocation::Spill(ns as usize));
        lemma_insert_by_end_props(a1.drop_last(), (x, q));
        assert forall|r: IrReg| #[trigger] location_of(m2, r) == if r == x.reg {
            Some(RegLocation::Reg(q))
        } else if r == z.reg {
            Some(RegLocation::Spill(ns as usize))
        } else {
            location_of(m0, r)
        } by {
            lemma_map_set_location(m1, x.reg, RegLocation::Reg(q), r);
            lemma_map_set_location(m0, z.reg, RegLocation::Spill(ns as usize), r);
        }
        // An entry other than the last is not the spilled interval.
        assert forall|i: int| 0 <= i < last implies (#[trigger] a1[i]).0.reg != z.reg by {
            assert(a1.contains(a1[i]));
            assert(st.active.contains(a1[i]));
            if a1[i].0.reg == z.reg {
                let k = choose|k: int| 0 <= k < n && xs[k] == a1[i].0;
                assert(k == kz);
                assert(location_of(m0, z.reg) == Some(RegLocation::Reg(a1[i].1)));
                assert(location_of(m0, z.reg) == Some(RegLocation::Reg(q)));
            }
        }
        assert forall|e: (LiveInterval, PhysReg)| #[trigger] st2.active.contains(e) implies location_of(m2, e.0.reg)
            == Some(RegLocation::Reg(e.1)) by {
            if e != (x, q) {
                let i = choose|i: int| 0 <= i < a1.drop_last().len() && a1.drop_last()[i] == e;
                assert(a1[i] == e);
                assert(a1.contains(e));
                assert(st.active.contains(e));
                let k = choose|k: int| 0 <= k < n && xs[k] == e.0;
            }
        }
        assert forall|k: int| 0 <= k < n + 1 implies (#[trigger] location_of(m2, xs[k].reg)) is Some by {}
        assert forall|k: int| 0 <= k < n + 1 implies match #[trigger] location_of(m2, xs[k].reg) {
            Some(RegLocation::Reg(q2)) => st2.active.contains((xs[k], q2)) || xs[k].end < xs[n].start,
            _ => true,
        } by {
            if k < n && k != kz {
                assert(xs[k].reg != z.reg);
                if let Some(RegLocation::Reg(q2)) = location_of(m0, xs[k].reg) {
                    if st.active.contains((xs[k], q2)) && xs[k].end >= x.start {
                        assert(a1.contains((xs[k], q2)));
                        let i = choose|i: int| 0 <= i < a1.len() && a1[i] == (xs[k], q2);
                        assert(i != last);
                        assert(a1.drop_last()[i] == (xs[k], q2));
                        assert(a1.drop_last().contains((xs[k], q2)));
                    }
                    if n > 0 {
                        assert(xs[n - 1].start <= xs[n].start);
                    }
                }
            }
        }
        assert forall|k1: int, k2: int|
            0 <= k1 < n + 1 && 0 <= k2 < n + 1 && k1 != k2 && same_register(
                #[trigger] location_of(m2, xs[k1].reg),
                #[trigger] location_of(m2, xs[k2].reg),
            ) implies !overlap(xs[k1], xs[k2]) by {
            if k1 < n && k2 < n {
                assert(xs[k1].reg != z.reg || k1 == kz);
                assert(xs[k2].reg != z.reg || k2 == kz);
                assert(same_register(location_of(m0, xs[k1].reg), location_of(m0, xs[k2].reg)));
            } else {
                let k = if k1 < n {
                    k1
                } else {
                    k2
                };
                assert(k != kz);
                assert(xs[k].reg != z.reg);
                assert(location_of(m0, xs[k].reg) == Some(RegLocation::Reg(q)));
                if st.active.contains((xs[k], q)) && xs[k].end >= x.start {
                    assert(a1.contains((xs[k], q)));
                    let i = choose|i: int| 0 <= i < a1.len() && a1[i] == (xs[k], q);
                    assert(i != last);
                }
                if n > 0 {
                    assert(xs[n - 1].start <= xs[n].start);
                }
            }
        }
    } else {
        let ns = st.next_spill;
        assert forall|r: IrReg| #[trigger] location_of(m2, r) == if r == x.reg {
            Some(RegLocation::Spill(ns as usize))
        } else {
            location_of(m0, r)
        } by {
            lemma_map_set_location(m0, x.reg, RegLocation::Spill(ns as usize), r);
        }
        assert forall|e: (LiveInterval, PhysReg)| #[trigger] st2.active.contains(e) implies location_of(m2, e.0.reg)
            == Some(RegLocation::Reg(e.1)) by {
            assert(st.active.contains(e));
            let k = choose|k: int| 0 <= k < n && xs[k] == e.0;
        }
        assert forall|k: int| 0 <= k < n + 1 implies (#[trigger] location_of(m2, xs[k].reg)) is Some by {}
        assert forall|k: int| 0 <= k < n + 1 implies match #[trigger] location_of(m2, xs[k].reg) {
            Some(RegLocation::Reg(q2)) => st2.active.contains((xs[k], q2)) || xs[k].end < xs[n].start,
            _ => true,
        } by {
            if k < n {
                if let Some(RegLocation::Reg(q2)) = location_of(m0, xs[k].reg) {
                    if st.active.contains((xs[k], q2)) && xs[k].end >= x.start {
                        assert(a1.contains((xs[k], q2)));
                    }
                    if n > 0 {
                        assert(xs[n - 1].start <= xs[n].start);
                    }
                }
            }
        }
        assert forall|k1: int, k2: int|
            0 <= k1 < n + 1 && 0 <= k2 < n + 1 && k1 != k2 && same_register(
                #[trigger] location_of(m2, xs[k1].reg),
                #[trigger] location_of(m2, xs[k2].reg),
            ) implies !overlap(xs[k1], xs[k2]) by {
            assert(same_register(location_of(m0, xs[k1].reg), location_of(m0, xs[k2].reg)));
        }
    }
}


proof fn lemma_run_loc(pool: Seq<PhysReg>, xs: Seq<LiveInterval>, n: int)
    requires
        0 <= n <= xs.len(),
        sorted_by_start(xs),
        distinct_regs(xs),
        pool.no_duplicates(),
    ensures
        scan_inv(pool, xs, n, alloc_run(initial_alloc(pool), xs, n)),
        scan_loc_inv(xs, n, alloc_run(initial_alloc(pool), xs, n)),
    decreases n,
{
    if n == 0 {
        lemma_initial_scan_inv(pool, xs);
    } else {
        lemma_run_loc(pool, xs, n - 1);
        let st = alloc_run(initial_alloc(pool), xs, n - 1);
        lemma_scan_step(pool, xs, n - 1, st);
        lemma_scan_loc_step(pool, xs, n - 1, st);
    }
}

proof fn lemma_step_keeps_mapped(st: AllocState, x: LiveInterval, r: IrReg)
    requires
        location_of(st.mapping, r) is Some || r == x.reg,
    ensures
        location_of(alloc_step(st, x).mapping, r) is Some,
{
    let (a1, v1) = expire(st.active, st.avail, x.start);
    let m0 = st.mapping;
    if v1.len() > 0 {
        lemma_map_set_location(m0, x.reg, RegLocation::Reg(v1[0]), r);
    } else if a1.len() > 0 && a1.last().0.end > x.end {
        let m1 = map_set(m0, a1.last().0.reg, RegLocation::Spill(st.next_spill as usize));
        lemma_map_set_location(m0, a1.last().0.reg, RegLocation::Spill(st.next_spill as usize), r);
        lemma_map_set_location(m1, x.reg, RegLocation::Reg(a1.last().1), r);
    } else {
        lemma_map_set_location(m0, x.reg, RegLocation::Spill(st.next_spill as usize), r);
    }
}

proof fn lemma_run_mapped(st: AllocState, xs: Seq<LiveInterval>, n: int)
    requires
        0 <= n <= xs.len(),
    ensures
        forall|k: int| 0 <= k < n ==> (#[trigger] location_of(alloc_run(st, xs, n).mapping, xs[k].reg)) is Some,
    decreases n,
{
    if n > 0 {
        lemma_run_mapped(st, xs, n - 1);
        let s1 = alloc_run(st, xs, n - 1);
        assert forall|k: int| 0 <= k < n implies (#[trigger] location_of(alloc_run(st, xs, n).mapping, xs[k].reg)) is Some by {
            if k < n - 1 {
                assert(location_of(s1.mapping, xs[k].reg) is Some);
            }
            lemma_step_keeps_mapped(s1, xs[n - 1], xs[k].reg);
        }
    }
}

/// Every interval's register is given a location.
pub proof fn lemma_every_interval_located(pool: Seq<PhysReg>, intervals: Seq<LiveInterval>)
    ensures
        forall|i: int| 0 <= i < intervals.len() ==> (#[trigger] location_of(allocation(pool, intervals).0, intervals[i].reg)) is Some,
{
    let xs = sort_by_start(intervals);
    lemma_sort_len(intervals);
    lemma_sort_keeps_input(intervals);
    lemma_run_mapped(initial_alloc(pool), xs, xs.len() as int);
    assert forall|i: int| 0 <= i < intervals.len() implies (#[trigger] location_of(allocation(pool, intervals).0, intervals[i].reg)) is Some by {
        let k = choose|k: int| #![trigger xs[k]] 0 <= k < intervals.len() && xs[k] == intervals[i];
        assert(location_of(alloc_run(initial_alloc(pool), xs, xs.len() as int).mapping, xs[k].reg) is Some);
    }
}

/// Two intervals (of distinct registers) placed in the same physical register
/// never share a point, when the pool names each register once.
pub proof fn lemma_no_register_conflict(pool: Seq<PhysReg>, intervals: Seq<LiveInterval>)
    requires
        pool.no_duplicates(),
        distinct_regs(intervals),
    ensures
        forall|i: int, j: int|
            0 <= i < intervals.len() && 0 <= j < intervals.len() && i != j && same_register(
                #[trigger] location_of(allocation(pool, intervals).0, intervals[i].reg),
                #[trigger] location_of(allocation(pool, intervals).0, intervals[j].reg),
            ) ==> !overlap(intervals[i], intervals[j]),
{
    let xs = sort_by_start(intervals);
    lemma_sort_sorted(intervals);
    lemma_sort_keeps_input(intervals);
    let rel = |a: LiveInterval, b: LiveInterval| a.reg != b.reg;
    assert forall|i: int, j: int| 0 <= i < intervals.len() && 0 <= j < intervals.len() && i != j implies #[trigger] rel(
        intervals[i],
        intervals[j],
    ) by {}
    lemma_sort_pairwise(intervals, rel);
    assert forall|i: int, j: int| 0 <= i < xs.len() && 0 <= j < xs.len() && i != j implies (#[trigger] xs[i]).reg != (
    #[trigger] xs[j]).reg by {
        assert(rel(xs[i], xs[j]));
    }
    lemma_run_loc(pool, xs, xs.len() as int);
    let m = allocation(pool, intervals).0;
    assert forall|i: int, j: int|
        0 <= i < intervals.len() && 0 <= j < intervals.len() && i != j && same_register(
            #[trigger] location_of(m, intervals[i].reg),
            #[trigger] location_of(m, intervals[j].reg),
        ) implies !overlap(intervals[i], intervals[j]) by {
        let ki = choose|k: int| #![trigger xs[k]] 0 <= k < intervals.len() && xs[k] == intervals[i];
        let kj = choose|k: int| #![trigger xs[k]] 0 <= k < intervals.len() && xs[k] == intervals[j];
        assert(intervals[i].reg != intervals[j].reg);
        assert(ki != kj);
        assert(same_register(location_of(m, xs[ki].reg), location_of(m, xs[kj].reg)));
    }
}


/// A mapping gives each virtual register one entry, and its stack slots are
/// distinct and numbered below `n`.
pub open spec fn slots_sound(m: Seq<(IrReg, RegLocation)>, n: nat) -> bool {
    &&& forall|i: int, j: int| 0 <= i < j < m.len() ==> (#[trigger] m[i]).0 != (#[trigger] m[j]).0
    &&& forall|i: int| 0 <= i < m.len() ==> ((#[trigger] m[i]).1 matches RegLocation::Spill(s) ==> s < n)
    &&& forall|i: int, j: int|
        0 <= i < m.len() && 0 <= j < m.len() && i != j && (#[trigger] m[i]).1 is Spill ==> m[i].1 != (
        #[trigger] m[j]).1
}

proof fn lemma_map_set_slots(m: Seq<(IrReg, RegLocation)>, n: nat, r: IrReg, loc: RegLocation)
    requires
        slots_sound(m, n),
        loc matches RegLocation::Spill(s) ==> s == n,
    ensures
        slots_sound(map_set(m, r, loc), if loc is Spill { n + 1 } else { n }),
        slots_sound(map_set(m, r, loc), n + 1),
{
    lemma_map_index_some(m, r, 0);
    let m2 = map_set(m, r, loc);
    let n2: nat = if loc is Spill { n + 1 } else { n };
    match map_index_from(m, r, 0) {
        Some(k) => {
            assert forall|i: int, j: int| 0 <= i < j < m2.len() implies (#[trigger] m2[i]).0 != (#[trigger] m2[j]).0 by {
                assert(m2[i].0 == m[i].0 && m2[j].0 == m[j].0);
            }
            assert forall|i: int, j: int|
                0 <= i < m2.len() && 0 <= j < m2.len() && i != j && (#[trigger] m2[i]).1 is Spill implies m2[i].1 != (
                #[trigger] m2[j]).1 by {
                if i != k && j != k {
                    assert(m2[i] == m[i] && m2[j] == m[j]);
                } else if i == k {
                    assert(m2[j] == m[j]);
                } else {
                    assert(m2[i] == m[i]);
                }
            }
        },
        None => {
            assert forall|i: int, j: int| 0 <= i < j < m2.len() implies (#[trigger] m2[i]).0 != (#[trigger] m2[j]).0 by {
                assert(m2[i] == m[i]);
            }
            assert forall|i: int, j: int|
                0 <= i < m2.len() && 0 <= j < m2.len() && i != j && (#[trigger] m2[i]).1 is Spill implies m2[i].1 != (
                #[trigger] m2[j]).1 by {
                if i < m.len() && j < m.len() {
                    assert(m2[i] == m[i] && m2[j] == m[j]);
                } else if i < m.len() {
                    assert(m2[i] == m[i]);
                } else {
                    assert(m2[j] == m[j]);
                }
            }
        },
    }
    assert forall|i: int| 0 <= i < m2.len() implies ((#[trigger] m2[i]).1 matches RegLocation::Spill(s) ==> s < n2) by {
        if i < m.len() && m2[i] != (r, loc) {
            assert(m2[i] == m[i]);
        }
    }
}

proof fn lemma_step_slots(st: AllocState, x: LiveInterval)
    requires
        slots_sound(st.mapping, st.next_spill),
        st.next_spill < usize::MAX,
    ensures
        slots_sound(alloc_step(st, x).mapping, alloc_step(st, x).next_spill),
        alloc_step(st, x).next_spill <= st.next_spill + 1,
{
    let (active, avail) = expire(st.active, st.avail, x.start);
    let st1 = AllocState { active, avail, ..st };
    if avail.len() == 0 {
        let slot = RegLocation::Spill(st.next_spill as usize);
        if st1.active.len() > 0 && st1.active.last().0.end > x.end {
            let (spilled, phys) = st1.active.last();
            lemma_map_set_slots(st.mapping, st.next_spill, spilled.reg, slot);
            lemma_map_set_slots(map_set(st.mapping, spilled.reg, slot), st.next_spill + 1, x.reg, RegLocation::Reg(phys));
        } else {
            lemma_map_set_slots(st.mapping, st.next_spill, x.reg, slot);
        }
    } else {
        lemma_map_set_slots(st.mapping, st.next_spill, x.reg, RegLocation::Reg(avail[0]));
    }
}

proof fn lemma_run_slots(st: AllocState, xs: Seq<LiveInterval>, n: int)
    requires
        slots_sound(st.mapping, st.next_spill),
        0 <= n <= xs.len(),
        st.next_spill + n <= usize::MAX,
    ensures
        slots_sound(alloc_run(st, xs, n).mapping, alloc_run(st, xs, n).next_spill),
        alloc_run(st, xs, n).next_spill <= st.next_spill + n,
    decreases n,
{
    if n > 0 {
        lemma_run_slots(st, xs, n - 1);
        lemma_step_slots(alloc_run(st, xs, n - 1), xs[n - 1]);
    }
}

/// Each virtual register has one location in the allocation, and the stack
/// slots it uses are distinct, each below the number of slots reported.
pub proof fn lemma_spill_slots_distinct(pool: Seq<PhysReg>, intervals: Seq<LiveInterval>)
    requires
        intervals.len() <= usize::MAX,
    ensures
        slots_sound(allocation(pool, intervals).0, allocation(pool, intervals).1),
{
    let xs = sort_by_start(intervals);
    lemma_sort_len(intervals);
    lemma_run_slots(initial_alloc(pool), xs, xs.len() as int);
}

proof fn lemma_expire_len(active: Seq<(LiveInterval, PhysReg)>, avail: Seq<PhysReg>, s: usize)
    ensures
        expire(active, avail, s).0.len() <= active.len(),
    decreases active.len(),
{
    if active.len() > 0 {
        if active[0].0.end < s {
            lemma_expire_len(active.drop_first(), seq![active[0].1] + avail, s);
        } else {
            lemma_expire_len(active.drop_first(), avail, s);
        }
    }
}

/// A step of the scan over a pool with more registers than active intervals
/// finds a free register, and adds at most one active interval.
proof fn lemma_step_room(pool: Seq<PhysReg>, xs: Seq<LiveInterval>, n: int, st: AllocState)
    requires
        scan_inv(pool, xs, n, st),
        n < xs.len(),
        st.active.len() < pool.len(),
    ensures
        alloc_step(st, xs[n]).next_spill == st.next_spill,
        alloc_step(st, xs[n]).active.len() <= st.active.len() + 1,
{
    broadcast use vstd::seq_lib::group_to_multiset_ensures;
    broadcast use vstd::multiset::group_multiset_axioms;

    let x = xs[n];
    lemma_expire_props(st.active, st.avail, x.start);
    lemma_expire_len(st.active, st.avail, x.start);
    let (active1, avail1) = expire(st.active, st.avail, x.start);
    assert(active_regs(active1).len() == active1.len());
    assert(avail1.to_multiset().add(active_regs(active1).to_multiset()).len() == pool.to_multiset().len());
    assert(avail1.len() + active1.len() == pool.len());
    assert(avail1.len() > 0);
    lemma_insert_by_end_props(active1, (x, avail1[0]));
}

proof fn lemma_run_room(pool: Seq<PhysReg>, xs: Seq<LiveInterval>, n: int)
    requires
        0 <= n <= xs.len(),
        xs.len() <= pool.len(),
    ensures
        scan_inv(pool, xs, n, alloc_run(initial_alloc(pool), xs, n)),
        alloc_run(initial_alloc(pool), xs, n).next_spill == 0,
        alloc_run(initial_alloc(pool), xs, n).active.len() <= n,
    decreases n,
{
    if n == 0 {
        lemma_initial_scan_inv(pool, xs);
    } else {
        lemma_run_room(pool, xs, n - 1);
        let st = alloc_run(initial_alloc(pool), xs, n - 1);
        lemma_scan_step(pool, xs, n - 1, st);
        lemma_step_room(pool, xs, n - 1, st);
    }
}

/// When the pool has a register for every interval, nothing is spilled.
pub proof fn lemma_enough_registers_never_spill(pool: Seq<PhysReg>, intervals: Seq<LiveInterval>)
    requires
        intervals.len() <= pool.len(),
    ensures
        allocation(pool, intervals).1 == 0,
{
    let xs = sort_by_start(intervals);
    lemma_sort_len(intervals);
    lemma_run_room(pool, xs, xs.len() as int);
}

/// Every physical register that the mapping names is one of the pool's.
pub open spec fn regs_from_pool(m: Seq<(IrReg, RegLocation)>, pool: Seq<PhysReg>) -> bool {
    forall|i: int| 0 <= i < m.len() ==> ((#[trigger] m[i]).1 matches RegLocation::Reg(p) ==> pool.contains(p))
}

proof fn lemma_map_set_from_pool(m: Seq<(IrReg, RegLocation)>, pool: Seq<PhysReg>, r: IrReg, loc: RegLocation)
    requires
        regs_from_pool(m, pool),
        loc matches RegLocation::Reg(p) ==> pool.contains(p),
    ensures
        regs_from_pool(map_set(m, r, loc), pool),
{
    lemma_map_index_some(m, r, 0);
    let m2 = map_set(m, r, loc);
    assert forall|i: int| 0 <= i < m2.len() implies ((#[trigger] m2[i]).1 matches RegLocation::Reg(p) ==> pool.contains(p)) by {
        match map_index_from(m, r, 0) {
            Some(k) => {
                if i != k {
                    assert(m2[i] == m[i]);
                }
            },
            None => {
                if i < m.len() {
                    assert(m2[i] == m[i]);
                }
            },
        }
    }
}

proof fn lemma_held_in_pool(pool: Seq<PhysReg>, st: AllocState, p: PhysReg)
    requires
        held(st) == pool.to_multiset(),
        st.avail.contains(p) || active_regs(st.active).contains(p),
    ensures
        pool.contains(p),
{
    broadcast use vstd::seq_lib::group_to_multiset_ensures;
    broadcast use vstd::multiset::group_multiset_axioms;

    assert(held(st).count(p) > 0);
}

proof fn lemma_step_from_pool(pool: Seq<PhysReg>, xs: Seq<LiveInterval>, n: int, st: AllocState)
    requires
        scan_inv(pool, xs, n, st),
        n < xs.len(),
        regs_from_pool(st.mapping, pool),
    ensures
        regs_from_pool(alloc_step(st, xs[n]).mapping, pool),
{
    let x = xs[n];
    lemma_expire_props(st.active, st.avail, x.start);
    let (active1, avail1) = expire(st.active, st.avail, x.start);
    let st1 = AllocState { active: active1, avail: avail1, ..st };
    assert(held(st1) == held(st));
    if avail1.len() == 0 {
        let slot = RegLocation::Spill(st.next_spill as usize);
        if active1.len() > 0 && active1.last().0.end > x.end {
            let (spilled, phys) = active1.last();
            assert(active_regs(active1)[active1.len() - 1] == phys);
            lemma_held_in_pool(pool, st1, phys);
            lemma_map_set_from_pool(st.mapping, pool, spilled.reg, slot);
            lemma_map_set_from_pool(map_set(st.mapping, spilled.reg, slot), pool, x.reg, RegLocation::Reg(phys));
        } else {
            lemma_map_set_from_pool(st.mapping, pool, x.reg, slot);
        }
    } else {
        assert(avail1[0] == avail1[0]);
        lemma_held_in_pool(pool, st1, avail1[0]);
        lemma_map_set_from_pool(st.mapping, pool, x.reg, RegLocation::Reg(avail1[0]));
    }
}

proof fn lemma_run_from_pool(pool: Seq<PhysReg>, xs: Seq<LiveInterval>, n: int)
    requires
        0 <= n <= xs.len(),
    ensures
        scan_inv(pool, xs, n, alloc_run(initial_alloc(pool), xs, n)),
        regs_from_pool(alloc_run(initial_alloc(pool), xs, n).mapping, pool),
    decreases n,
{
    if n == 0 {
        lemma_initial_scan_inv(pool, xs);
    } else {
        lemma_run_from_pool(pool, xs, n - 1);
        let st = alloc_run(initial_alloc(pool), xs, n - 1);
        lemma_scan_step(pool, xs, n - 1, st);
        lemma_step_from_pool(pool, xs, n - 1, st);
    }
}

/// Every physical register that the allocation hands out is one of the pool's.
pub proof fn lemma_registers_come_from_pool(pool: Seq<PhysReg>, intervals: Seq<LiveInterval>)
    ensures
        regs_from_pool(allocation(pool, intervals).0, pool),
{
    let xs = sort_by_start(intervals);
    lemma_run_from_pool(pool, xs, xs.len() as int);
}

/// The mapping names only registers of the first `n` intervals of `xs`.
pub open spec fn keys_among(m: Seq<(IrReg, RegLocation)>, xs: Seq<LiveInterval>, n: int) -> bool {
    forall|i: int| 0 <= i < m.len() ==> exists|k: int| 0 <= k < n && (#[trigger] m[i]).0 == #[trigger] xs[k].reg
}

/// The stack slot `s` is the location of some register.
pub open spec fn slot_held(m: Seq<(IrReg, RegLocation)>, s: int) -> bool {
    exists|i: int| 0 <= i < m.len() && #[trigger] m[i].1 == RegLocation::Spill(s as usize)
}

/// Every stack slot below `n` is the location of some register.
pub open spec fn slots_used(m: Seq<(IrReg, RegLocation)>, n: nat) -> bool {
    forall|s: int| 0 <= s < n ==> #[trigger] slot_held(m, s)
}

proof fn lemma_map_set_new_key(m: Seq<(IrReg, RegLocation)>, r: IrReg, loc: RegLocation)
    requires
        forall|j: int| 0 <= j < m.len() ==> (#[trigger] m[j]).0 != r,
    ensures
        map_set(m, r, loc) == m.push((r, loc)),
{
    lemma_map_index_none(m, r, 0);
}

proof fn lemma_step_slots_used(pool: Seq<PhysReg>, xs: Seq<LiveInterval>, n: int, st: AllocState)
    requires
        scan_inv(pool, xs, n, st),
        scan_loc_inv(xs, n, st),
        n < xs.len(),
        distinct_regs(xs),
        keys_among(st.mapping, xs, n),
        slots_used(st.mapping, st.next_spill),
        st.next_spill < usize::MAX,
    ensures
        keys_among(alloc_step(st, xs[n]).mapping, xs, n + 1),
        slots_used(alloc_step(st, xs[n]).mapping, alloc_step(st, xs[n]).next_spill),
{
    let x = xs[n];
    let m = st.mapping;
    lemma_expire_props(st.active, st.avail, x.start);
    let (active1, avail1) = expire(st.active, st.avail, x.start);
    assert forall|j: int| 0 <= j < m.len() implies (#[trigger] m[j]).0 != x.reg by {
        let k = choose|k: int| 0 <= k < n && (#[trigger] m[j]).0 == #[trigger] xs[k].reg;
        assert(xs[k].reg != xs[n].reg);
    }
    let st2 = alloc_step(st, x);
    if avail1.len() == 0 && active1.len() > 0 && active1.last().0.end > x.end {
        let (spilled, phys) = active1.last();
        let e = active1.last();
        assert(active1.contains(e)) by {
            assert(active1[active1.len() - 1] == e);
        }
        assert(st.active.contains(e));
        assert(location_of(m, spilled.reg) == Some(RegLocation::Reg(phys)));
        lemma_map_index_some(m, spilled.reg, 0);
        let k0 = map_index_from(m, spilled.reg, 0)->Some_0;
        let slot = RegLocation::Spill(st.next_spill as usize);
        let m1 = map_set(m, spilled.reg, slot);
        assert(m1 == m.update(k0, (spilled.reg, slot)));
        assert forall|j: int| 0 <= j < m1.len() implies (#[trigger] m1[j]).0 != x.reg by {
            assert(m1[j].0 == m[j].0);
        }
        lemma_map_set_new_key(m1, x.reg, RegLocation::Reg(phys));
        let m2 = st2.mapping;
        assert(m2 == m1.push((x.reg, RegLocation::Reg(phys))));
        assert forall|i: int| 0 <= i < m2.len() implies exists|k: int| 0 <= k < n + 1 && (#[trigger] m2[i]).0
            == #[trigger] xs[k].reg by {
            if i < m.len() {
                assert(m2[i].0 == m[i].0);
                let k = choose|k: int| 0 <= k < n && (#[trigger] m[i]).0 == #[trigger] xs[k].reg;
                assert(xs[k].reg == m2[i].0);
            } else {
                assert(xs[n].reg == m2[i].0);
            }
        }
        assert forall|sl: int| 0 <= sl < st2.next_spill implies #[trigger] slot_held(m2, sl) by {
            if sl < st.next_spill {
                assert(slot_held(m, sl));
                let i = choose|i: int| 0 <= i < m.len() && #[trigger] m[i].1 == RegLocation::Spill(sl as usize);
                assert(i != k0);
                assert(m2[i] == m[i]);
            } else {
                assert(m2[k0].1 == RegLocation::Spill(sl as usize));
            }
        }
    } else {
        let loc = if avail1.len() == 0 {
            RegLocation::Spill(st.next_spill as usize)
        } else {
            RegLocation::Reg(avail1[0])
        };
        lemma_map_set_new_key(m, x.reg, loc);
        let m2 = st2.mapping;
        assert(m2 == m.push((x.reg, loc)));
        assert forall|i: int| 0 <= i < m2.len() implies exists|k: int| 0 <= k < n + 1 && (#[trigger] m2[i]).0
            == #[trigger] xs[k].reg by {
            if i < m.len() {
                assert(m2[i].0 == m[i].0);
                let k = choose|k: int| 0 <= k < n && (#[trigger] m[i]).0 == #[trigger] xs[k].reg;
                assert(xs[k].reg == m2[i].0);
            } else {
                assert(xs[n].reg == m2[i].0);
            }
        }
        assert forall|sl: int| 0 <= sl < st2.next_spill implies #[trigger] slot_held(m2, sl) by {
            if sl < st.next_spill {
                assert(slot_held(m, sl));
                let i = choose|i: int| 0 <= i < m.len() && #[trigger] m[i].1 == RegLocation::Spill(sl as usize);
                assert(m2[i] == m[i]);
            } else {
                assert(m2[m.len() as int].1 == RegLocation::Spill(sl as usize));
            }
        }
    }
}

proof fn lemma_run_slots_used(pool: Seq<PhysReg>, xs: Seq<LiveInterval>, n: int)
    requires
        0 <= n <= xs.len(),
        xs.len() <= usize::MAX,
        sorted_by_start(xs),
        distinct_regs(xs),
        pool.no_duplicates(),
    ensures
        keys_among(alloc_run(initial_alloc(pool), xs, n).mapping, xs, n),
        slots_used(alloc_run(initial_alloc(pool), xs, n).mapping, alloc_run(initial_alloc(pool), xs, n).next_spill),
    decreases n,
{
    if n > 0 {
        lemma_run_slots_used(pool, xs, n - 1);
        lemma_run_loc(pool, xs, n - 1);
        lemma_run_slots(initial_alloc(pool), xs, n - 1);
        let st = alloc_run(initial_alloc(pool), xs, n - 1);
        lemma_step_slots_used(pool, xs, n - 1, st);
    }
}

/// With intervals of distinct registers and a pool that names each register
/// once, the stack slots used are exactly those numbered 0 up to below the
/// number of slots reported: each such slot holds exactly one register.
pub proof fn lemma_spill_slots_exact(pool: Seq<PhysReg>, intervals: Seq<LiveInterval>)
    requires
        intervals.len() <= usize::MAX,
        distinct_regs(intervals),
        pool.no_duplicates(),
    ensures
        slots_used(allocation(pool, intervals).0, allocation(pool, intervals).1),
        slots_sound(allocation(pool, intervals).0, allocation(pool, intervals).1),
{
    let xs = sort_by_start(intervals);
    lemma_sort_len(intervals);
    lemma_sort_sorted(intervals);
    lemma_sort_keeps_input(intervals);
    let rel = |a: LiveInterval, b: LiveInterval| a.reg != b.reg;
    assert forall|i: int, j: int| 0 <= i < intervals.len() && 0 <= j < intervals.len() && i != j implies #[trigger] rel(
        intervals[i],
        intervals[j],
    ) by {}
    lemma_sort_pairwise(intervals, rel);
    assert forall|i: int, j: int| 0 <= i < xs.len() && 0 <= j < xs.len() && i != j implies (#[trigger] xs[i]).reg != (
    #[trigger] xs[j]).reg by {
        assert(rel(xs[i], xs[j]));
    }
    lemma_run_slots_used(pool, xs, xs.len() as int);
    lemma_spill_slots_distinct(pool, intervals);
}

/// The register `r` is that of an interval of `xs` live at point `p`.
pub open spec fn live_at(xs: Seq<LiveInterval>, r: IrReg, p: int) -> bool {
    exists|k: int| 0 <= k < xs.len() && #[trigger] xs[k].reg == r && xs[k].start <= p <= xs[k].end
}

/// More than `c` intervals of `xs`, of distinct registers, are live at point `p`.
pub open spec fn pressure(xs: Seq<LiveInterval>, c: nat, p: int) -> bool {
    exists|rs: Seq<IrReg>|
        rs.len() == c + 1 && rs.no_duplicates() && forall|i: int| 0 <= i < rs.len() ==> #[trigger] live_at(xs, rs[i], p)
}

proof fn lemma_spill_step_pressure(pool: Seq<PhysReg>, xs: Seq<LiveInterval>, n: int, st: AllocState)
    requires
        scan_inv(pool, xs, n, st),
        scan_loc_inv(xs, n, st),
        n < xs.len(),
        sorted_by_start(xs),
        distinct_regs(xs),
        pool.no_duplicates(),
        xs[n].start <= xs[n].end,
        alloc_step(st, xs[n]).next_spill != st.next_spill,
    ensures
        pressure(xs, pool.len(), xs[n].start as int),
{
    broadcast use vstd::seq_lib::group_to_multiset_ensures;
    broadcast use vstd::multiset::group_multiset_axioms;

    let x = xs[n];
    let p = x.start as int;
    lemma_expire_props(st.active, st.avail, x.start);
    let (active1, avail1) = expire(st.active, st.avail, x.start);
    let st1 = AllocState { active: active1, avail: avail1, ..st };
    assert(held(st1) == held(st));
    assert(avail1.len() == 0);
    assert(active_regs(active1).len() == active1.len());
    assert(held(st1).len() == pool.to_multiset().len());
    assert(active1.len() == pool.len());
    lemma_held_unique(pool, st1);
    let rs = Seq::new(active1.len(), |i: int| active1[i].0.reg).push(x.reg);
    assert forall|i: int| 0 <= i < rs.len() implies #[trigger] live_at(xs, rs[i], p) by {
        if i < active1.len() {
            let e = active1[i];
            assert(active1.contains(e));
            assert(st.active.contains(e));
            let k = choose|k: int| 0 <= k < n && xs[k] == e.0;
            assert(xs[k].reg == rs[i]);
        } else {
            assert(xs[n].reg == rs[i]);
        }
    }
    assert forall|i: int, j: int| 0 <= i < rs.len() && 0 <= j < rs.len() && i != j implies rs[i] != rs[j] by {
        if i < active1.len() && j < active1.len() {
            let ei = active1[i];
            let ej = active1[j];
            assert(active1.contains(ei) && active1.contains(ej));
            assert(st.active.contains(ei) && st.active.contains(ej));
            if ei.0.reg == ej.0.reg {
                assert(location_of(st.mapping, ei.0.reg) == Some(RegLocation::Reg(ei.1)));
                assert(location_of(st.mapping, ej.0.reg) == Some(RegLocation::Reg(ej.1)));
            }
        } else if i < active1.len() || j < active1.len() {
            let a = if i < active1.len() { i } else { j };
            let e = active1[a];
            assert(active1.contains(e));
            assert(st.active.contains(e));
            let k = choose|k: int| 0 <= k < n && xs[k] == e.0;
            assert(xs[k].reg != xs[n].reg);
        }
    }
    assert(rs.no_duplicates());
}

proof fn lemma_run_pressure(pool: Seq<PhysReg>, xs: Seq<LiveInterval>, n: int)
    requires
        0 <= n <= xs.len(),
        sorted_by_start(xs),
        distinct_regs(xs),
        pool.no_duplicates(),
        forall|k: int| 0 <= k < xs.len() ==> (#[trigger] xs[k]).start <= xs[k].end,
    ensures
        alloc_run(initial_alloc(pool), xs, n).next_spill > 0 ==> exists|p: int| pressure(xs, pool.len(), p),
    decreases n,
{
    if n > 0 {
        lemma_run_pressure(pool, xs, n - 1);
        let st = alloc_run(initial_alloc(pool), xs, n - 1);
        if st.next_spill == 0 && alloc_step(st, xs[n - 1]).next_spill > 0 {
            lemma_run_loc(pool, xs, n - 1);
            assert(xs[n - 1].start <= xs[n - 1].end);
            lemma_spill_step_pressure(pool, xs, n - 1, st);
        }
    }
}

/// The allocator spills only under pressure: when it uses a stack slot, more
/// intervals than the pool has registers, of distinct registers, are live at
/// one point (intervals of distinct registers, each starting no later than it
/// ends, over a pool that names each register once).
pub proof fn lemma_spill_needs_pressure(pool: Seq<PhysReg>, intervals: Seq<LiveInterval>)
    requires
        distinct_regs(intervals),
        pool.no_duplicates(),
        forall|i: int| 0 <= i < intervals.len() ==> (#[trigger] intervals[i]).start <= intervals[i].end,
        allocation(pool, intervals).1 > 0,
    ensures
        exists|p: int| pressure(intervals, pool.len(), p),
{
    let xs = sort_by_start(intervals);
    lemma_sort_len(intervals);
    lemma_sort_sorted(intervals);
    lemma_sort_from_input(intervals);
    let rel = |a: LiveInterval, b: LiveInterval| a.reg != b.reg;
    assert forall|i: int, j: int| 0 <= i < intervals.len() && 0 <= j < intervals.len() && i != j implies #[trigger] rel(
        intervals[i],
        intervals[j],
    ) by {}
    lemma_sort_pairwise(intervals, rel);
    assert forall|i: int, j: int| 0 <= i < xs.len() && 0 <= j < xs.len() && i != j implies (#[trigger] xs[i]).reg != (
    #[trigger] xs[j]).reg by {
        assert(rel(xs[i], xs[j]));
    }
    assert forall|k: int| 0 <= k < xs.len() implies (#[trigger] xs[k]).start <= xs[k].end by {
        let m = choose|m: int| #![trigger intervals[m]] 0 <= m < intervals.len() && xs[k] == intervals[m];
    }
    lemma_run_pressure(pool, xs, xs.len() as int);
    let p = choose|p: int| pressure(xs, pool.len(), p);
    let rs = choose|rs: Seq<IrReg>|
        rs.len() == pool.len() + 1 && rs.no_duplicates() && forall|i: int| 0 <= i < rs.len() ==> #[trigger] live_at(xs, rs[i], p);
    assert forall|i: int| 0 <= i < rs.len() implies #[trigger] live_at(intervals, rs[i], p) by {
        assert(live_at(xs, rs[i], p));
        let k = choose|k: int| 0 <= k < xs.len() && #[trigger] xs[k].reg == rs[i] && xs[k].start <= p <= xs[k].end;
        let m = choose|m: int| #![trigger intervals[m]] 0 <= m < intervals.len() && xs[k] == intervals[m];
        assert(intervals[m].reg == rs[i]);
    }
    assert(pressure(intervals, pool.len(), p));
}

} // verus!
