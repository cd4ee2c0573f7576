//! Lowering of checked statements to SSA IR: each binding gets a fresh
//! virtual register, owned bindings are allocated and freed at their drops,
//! writes through raw pointers (and all accesses inside `unsafe`) are
//! volatile, and `unsafe` blocks become basic blocks of their own.

use vstd::prelude::*;
use vstd::string::*;
use crate::ast::{Expr, ExprV, Stmt, StmtV, Type, type_is_affine, stmts_view};
use crate::ir::{op_def, IrReg, Operand, IrOp, IrOpV, Terminator, TerminatorV, BasicBlock, BasicBlockV, FunctionIr,
    FunctionIrV, ops_view, blocks_view};
use crate::text::{decimal, push_decimal};

verus! {

broadcast use vstd::string::group_string_axioms;

/// A scope of the symbol table: names with their current register and type.
pub type SymScopeV = Seq<(Seq<char>, (IrReg, Type))>;

/// The mathematical state of the lowering.
pub struct LowerState {
    pub symbols: Seq<SymScopeV>,
    pub next_reg: nat,
    pub block_counter: nat,
    pub completed: Seq<BasicBlockV>,
    pub current: Seq<IrOpV>,
    pub label: Seq<char>,
    pub in_unsafe: bool,
}

/// The state of a fresh lowering: one empty scope, entry block `bb_entry`.
pub open spec fn initial_state() -> LowerState {
    LowerState {
        symbols: seq![seq![]],
        next_reg: 0,
        block_counter: 0,
        completed: seq![],
        current: seq![],
        label: "bb_entry"@,
        in_unsafe: false,
    }
}

pub open spec fn sym_index_from(sc: SymScopeV, name: Seq<char>, k: int) -> Option<int>
    decreases sc.len() - k,
{
    if k < 0 || k >= sc.len() {
        None
    } else if sc[k].0 == name {
        Some(k)
    } else {
        sym_index_from(sc, name, k + 1)
    }
}

/// The register and type of `name` in the innermost of the first `i` scopes that binds it.
pub open spec fn sym_lookup_from(syms: Seq<SymScopeV>, name: Seq<char>, i: int) -> Option<(IrReg, Type)>
    decreases i,
{
    if i <= 0 || i > syms.len() {
        None
    } else {
        match sym_index_from(syms[i - 1], name, 0) {
            Some(j) => Some(syms[i - 1][j].1),
            None => sym_lookup_from(syms, name, i - 1),
        }
    }
}

pub open spec fn sym_lookup(st: LowerState, name: Seq<char>) -> Option<(IrReg, Type)> {
    sym_lookup_from(st.symbols, name, st.symbols.len() as int)
}

/// Binds `name` in the innermost scope (replacing a binding of that scope);
/// with no scope, nothing changes.
pub open spec fn sym_insert(st: LowerState, name: Seq<char>, reg: IrReg, ty: Type) -> LowerState {
    if st.symbols.len() == 0 {
        st
    } else {
        let last = st.symbols.len() - 1;
        let sc = st.symbols[last];
        let sc2 = match sym_index_from(sc, name, 0) {
            Some(j) => sc.update(j, (name, (reg, ty))),
            None => sc.push((name, (reg, ty))),
        };
        LowerState { symbols: st.symbols.update(last, sc2), ..st }
    }
}

pub open spec fn push_sym_scope(st: LowerState) -> LowerState {
    LowerState { symbols: st.symbols.push(seq![]), ..st }
}

pub open spec fn pop_sym_scope(st: LowerState) -> LowerState {
    if st.symbols.len() == 0 {
        st
    } else {
        LowerState { symbols: st.symbols.drop_last(), ..st }
    }
}

/// A fresh register; there is none once the counter has reached `usize::MAX`.
pub open spec fn fresh_reg(st: LowerState) -> Option<(IrReg, LowerState)> {
    if st.next_reg >= usize::MAX {
        None
    } else {
        Some((IrReg(st.next_reg as usize), LowerState { next_reg: st.next_reg + 1, ..st }))
    }
}

/// A fresh label `prefix_n`.
pub open spec fn fresh_label(st: LowerState, prefix: Seq<char>) -> Option<(Seq<char>, LowerState)> {
    if st.block_counter >= usize::MAX {
        None
    } else {
        Some((prefix + "_"@ + decimal(st.block_counter), LowerState { block_counter: st.block_counter + 1, ..st }))
    }
}

/// Closes the current block with `term` and starts block `next`.
pub open spec fn close_block(st: LowerState, term: TerminatorV, next: Seq<char>) -> LowerState {
    LowerState {
        completed: st.completed.push(BasicBlockV { label: st.label, instructions: st.current, terminator: term }),
        current: seq![],
        label: next,
        ..st
    }
}

pub open spec fn emit(st: LowerState, op: IrOpV) -> LowerState {
    LowerState { current: st.current.push(op), ..st }
}

/// The operation that copies an operand into `dest`.
pub open spec fn copy_op(dest: IrReg, v: Operand) -> IrOpV {
    match v {
        Operand::Imm(x) => IrOpV::AssignImm { dest, value: x },
        Operand::Reg(src) => IrOpV::Add { dest, lhs: Operand::Reg(src), rhs: Operand::Imm(0) },
    }
}

/// Lowers an expression to an operand; `None` where a name is unbound or the
/// registers are exhausted.
pub open spec fn lower_expr_spec(e: ExprV, st: LowerState) -> Option<(Operand, LowerState)>
    decreases e,
{
    match e {
        ExprV::LiteralInt(v) => Some((Operand::Imm(v), st)),
        ExprV::LiteralBool(b) => Some((Operand::Imm(if b { 1 } else { 0 }), st)),
        ExprV::Variable(n) => match sym_lookup(st, n) {
            Some((reg, _)) => Some((Operand::Reg(reg), st)),
            None => None,
        },
        ExprV::Move(n) => match sym_lookup(st, n) {
            Some((reg, _)) => Some((Operand::Reg(reg), st)),
            None => None,
        },
        ExprV::Add(l, r) => match lower_expr_spec(*l, st) {
            None => None,
            Some((lo, st1)) => match lower_expr_spec(*r, st1) {
                None => None,
                Some((ro, st2)) => match fresh_reg(st2) {
                    None => None,
                    Some((dest, st3)) => Some(
                        (Operand::Reg(dest), emit(st3, IrOpV::Add { dest, lhs: lo, rhs: ro })),
                    ),
                },
            },
        },
        ExprV::Deref(inner) => match lower_expr_spec(*inner, st) {
            None => None,
            Some((p, st1)) => match fresh_reg(st1) {
                None => None,
                Some((dest, st2)) => match p {
                    Operand::Reg(ptr) => if st2.in_unsafe {
                        Some((Operand::Reg(dest), emit(st2, IrOpV::VolatileLoad { dest, ptr })))
                    } else {
                        Some((Operand::Reg(dest), emit(st2, IrOpV::Load { dest, ptr })))
                    },
                    Operand::Imm(_) => Some((Operand::Reg(dest), st2)),
                },
            },
        },
        _ => Some((Operand::Imm(0), st)),
    }
}

/// Every name that `e` reads is bound in `st`.
pub open spec fn expr_names_bound(e: ExprV, st: LowerState) -> bool
    decreases e,
{
    match e {
        ExprV::Variable(n) => sym_lookup(st, n) is Some,
        ExprV::Move(n) => sym_lookup(st, n) is Some,
        ExprV::Add(l, r) => expr_names_bound(*l, st) && expr_names_bound(*r, st),
        ExprV::Deref(inner) => expr_names_bound(*inner, st),
        _ => true,
    }
}

proof fn lemma_names_bound_syms(e: ExprV, a: LowerState, b: LowerState)
    requires
        a.symbols == b.symbols,
    ensures
        expr_names_bound(e, a) == expr_names_bound(e, b),
    decreases e,
{
    match e {
        ExprV::Add(l, r) => {
            lemma_names_bound_syms(*l, a, b);
            lemma_names_bound_syms(*r, a, b);
        },
        ExprV::Deref(inner) => lemma_names_bound_syms(*inner, a, b),
        _ => {},
    }
}

/// Lowering an expression that reads an unbound name fails.
proof fn lemma_unbound_name_fails(e: ExprV, st: LowerState)
    requires
        !expr_names_bound(e, st),
    ensures
        lower_expr_spec(e, st) is None,
    decreases e,
{
    match e {
        ExprV::Add(l, r) => {
            if !expr_names_bound(*l, st) {
                lemma_unbound_name_fails(*l, st);
            } else if let Some((lo, st1)) = lower_expr_spec(*l, st) {
                lemma_expr_frame(*l, st);
                lemma_names_bound_syms(*r, st, st1);
                lemma_unbound_name_fails(*r, st1);
            }
        },
        ExprV::Deref(inner) => lemma_unbound_name_fails(*inner, st),
        _ => {},
    }
}

/// Lowers a statement; `None` where lowering would stop on an unbound name or
/// on exhausted registers or labels.
pub open spec fn lower_stmt_spec(s: StmtV, st: LowerState) -> Option<LowerState>
    decreases s, 0int,
{
    match s {
        StmtV::Let(name, ty, e) => match ty {
            Type::Owned(_) => match fresh_reg(st) {
                None => None,
                Some((dest, st1)) => {
                    let size: u64 = match e {
                        ExprV::LiteralInt(v) => v,
                        _ => 64,
                    };
                    Some(sym_insert(emit(st1, IrOpV::Alloc { dest, size }), name, dest, ty))
                },
            },
            Type::RawPtr(_) => match fresh_reg(st) {
                None => None,
                Some((dest, st1)) => {
                    let addr: u64 = match e {
                        ExprV::LiteralInt(v) => v,
                        _ => 0,
                    };
                    Some(sym_insert(emit(st1, IrOpV::AssignImm { dest, value: addr }), name, dest, ty))
                },
            },
            _ => match lower_expr_spec(e, st) {
                None => None,
                Some((v, st1)) => match fresh_reg(st1) {
                    None => None,
                    Some((dest, st2)) => Some(sym_insert(emit(st2, copy_op(dest, v)), name, dest, ty)),
                },
            },
        },
        StmtV::Assign(lhs, rhs) => match lower_expr_spec(rhs, st) {
            None => None,
            Some((v, st1)) => match lhs {
                ExprV::Deref(inner) => match *inner {
                    ExprV::Variable(name) => match sym_lookup(st1, name) {
                        Some((ptr, ty)) => if ty is RawPtr || st1.in_unsafe {
                            Some(emit(st1, IrOpV::VolatileStore { ptr, value: v }))
                        } else {
                            Some(emit(st1, IrOpV::Store { ptr, value: v }))
                        },
                        None => Some(st1),
                    },
                    _ => Some(st1),
                },
                ExprV::Variable(name) => match fresh_reg(st1) {
                    None => None,
                    Some((dest, st2)) => {
                        let st3 = emit(st2, copy_op(dest, v));
                        match sym_lookup(st3, name) {
                            Some((_, old_ty)) => Some(sym_insert(st3, name, dest, old_ty)),
                            None => Some(st3),
                        }
                    },
                },
                _ => Some(st1),
            },
        },
        StmtV::Block(ss) => match lower_seq_spec(ss, 0, push_sym_scope(st)) {
            None => None,
            Some(st1) => Some(pop_sym_scope(st1)),
        },
        StmtV::UnsafeBlock(ss) => match fresh_label(st, "bb_unsafe"@) {
            None => None,
            Some((unsafe_label, st1)) => match fresh_label(st1, "bb_post_unsafe"@) {
                None => None,
                Some((post_label, st2)) => {
                    let st3 = close_block(st2, TerminatorV::Jump(unsafe_label), unsafe_label);
                    let st4 = LowerState { in_unsafe: true, ..push_sym_scope(st3) };
                    match lower_seq_spec(ss, 0, st4) {
                        None => None,
                        Some(st5) => {
                            let st6 = pop_sym_scope(LowerState { in_unsafe: st.in_unsafe, ..st5 });
                            Some(close_block(st6, TerminatorV::Jump(post_label), post_label))
                        },
                    }
                },
            },
        },
        StmtV::SyntheticDrop(name) => match sym_lookup(st, name) {
            Some((ptr, ty)) => if type_is_affine(ty) {
                Some(emit(st, IrOpV::Free { ptr }))
            } else {
                Some(st)
            },
            None => Some(st),
        },
        StmtV::Return(e) => match lower_expr_spec(e, st) {
            None => None,
            Some((v, st1)) => match fresh_label(st1, "bb_unreachable"@) {
                None => None,
                Some((next, st2)) => Some(close_block(st2, TerminatorV::Return(Some(v)), next)),
            },
        },
    }
}

/// Lowers the statements of `ss` from index `i` on.
pub open spec fn lower_seq_spec(ss: Seq<StmtV>, i: int, st: LowerState) -> Option<LowerState>
    decreases ss, ss.len() - i,
{
    if i < 0 || i >= ss.len() {
        Some(st)
    } else {
        match lower_stmt_spec(ss[i], st) {
            None => None,
            Some(st1) => lower_seq_spec(ss, i + 1, st1),
        }
    }
}

/// The function that lowering `ss` from state `st` produces: the completed
/// blocks, then the open block sealed with `Halt`.
pub open spec fn lowered_function(ss: Seq<StmtV>, st: LowerState, name: Seq<char>) -> FunctionIrV {
    let fin = lower_seq_spec(ss, 0, st).unwrap();
    FunctionIrV {
        name,
        blocks: fin.completed.push(BasicBlockV { label: fin.label, instructions: fin.current, terminator: TerminatorV::Halt }),
    }
}


pub open spec fn sym_scope_view(sc: Seq<(String, (IrReg, Type))>) -> SymScopeV {
    Seq::new(sc.len(), |j: int| (sc[j].0@, sc[j].1))
}

pub open spec fn syms_view(s: Seq<Vec<(String, (IrReg, Type))>>) -> Seq<SymScopeV> {
    Seq::new(s.len(), |i: int| sym_scope_view(s[i]@))
}

/// Lowers checked statements to an SSA control-flow graph.
pub struct IrLoweringVisitor {
    symbol_table: Vec<Vec<(String, (IrReg, Type))>>,
    next_reg_id: usize,
    block_counter: usize,
    completed_blocks: Vec<BasicBlock>,
    current_instructions: Vec<IrOp>,
    current_label: String,
    in_unsafe: bool,
}

impl View for IrLoweringVisitor {
    type V = LowerState;

    closed spec fn view(&self) -> LowerState {
        LowerState {
            symbols: syms_view(self.symbol_table@),
            next_reg: self.next_reg_id as nat,
            block_counter: self.block_counter as nat,
            completed: blocks_view(self.completed_blocks@),
            current: ops_view(self.current_instructions@),
            label: self.current_label@,
            in_unsafe: self.in_unsafe,
        }
    }
}

fn sym_scope_lookup(sc: &Vec<(String, (IrReg, Type))>, key: &String) -> (r: Option<usize>)
    ensures
        match r {
            Some(j) => sym_index_from(sym_scope_view(sc@), key@, 0) == Some(j as int) && j < sc@.len(),
            None => sym_index_from(sym_scope_view(sc@), key@, 0) is None,
        },
{
    let mut j: usize = 0;
    while j < sc.len()
        invariant
            j <= sc@.len(),
            sym_index_from(sym_scope_view(sc@), key@, 0) == sym_index_from(sym_scope_view(sc@), key@, j as int),
        decreases sc@.len() - j,
    {
        if sc[j].0 == *key {
            return Some(j);
        }
        j += 1;
    }
    None
}

impl IrLoweringVisitor {
    /// A fresh lowering: one empty scope, entry block `bb_entry`.
    pub fn new() -> (r: Self)
        ensures
            r@ == initial_state(),
    {
        let mut symbol_table: Vec<Vec<(String, (IrReg, Type))>> = Vec::new();
        symbol_table.push(Vec::new());
        let r = Self {
            symbol_table,
            next_reg_id: 0,
            block_counter: 0,
            completed_blocks: Vec::new(),
            current_instructions: Vec::new(),
            current_label: String::from_str("bb_entry"),
            in_unsafe: false,
        };
        assert(r@.symbols =~~= initial_state().symbols);
        assert(r@.completed =~= initial_state().completed);
        assert(r@.current =~= initial_state().current);
        r
    }

    /// A fresh SSA register; `None` once the registers are exhausted.
    fn alloc_reg(&mut self) -> (r: Option<IrReg>)
        ensures
            match fresh_reg(old(self)@) {
                Some((reg, st)) => r == Some(reg) && final(self)@ == st,
                None => r is None && final(self)@ == old(self)@,
            },
    {
        if self.next_reg_id == usize::MAX {
            return None;
        }
        let r = IrReg(self.next_reg_id);
        self.next_reg_id += 1;
        Some(r)
    }

    /// A fresh label `prefix_n`; `None` once the labels are exhausted.
    fn new_label(&mut self, prefix: &str) -> (r: Option<String>)
        ensures
            match fresh_label(old(self)@, prefix@) {
                Some((l, st)) => r matches Some(x) && x@ == l && final(self)@ == st,
                None => r is None && final(self)@ == old(self)@,
            },
    {
        if self.block_counter == usize::MAX {
            return None;
        }
        let mut lbl = String::from_str(prefix);
        lbl.append("_");
        push_decimal(&mut lbl, self.block_counter as u64);
        self.block_counter += 1;
        Some(lbl)
    }

    /// Closes the current block with `terminator` and starts block `next_label`.
    fn finish_block(&mut self, terminator: Terminator, next_label: String)
        ensures
            final(self)@ == close_block(old(self)@, terminator@, next_label@),
    {
        let mut label = next_label;
        core::mem::swap(&mut label, &mut self.current_label);
        let mut instructions: Vec<IrOp> = Vec::new();
        core::mem::swap(&mut instructions, &mut self.current_instructions);
        let bb = BasicBlock { label, instructions, terminator };
        let ghost ob = self.completed_blocks@;
        self.completed_blocks.push(bb);
        assert(blocks_view(self.completed_blocks@) =~= blocks_view(ob).push(bb@));
        assert(ops_view(self.current_instructions@) =~= seq![]);
    }

    fn emit(&mut self, op: IrOp)
        ensures
            final(self)@ == emit(old(self)@, op@),
    {
        let ghost oc = self.current_instructions@;
        self.current_instructions.push(op);
        assert(ops_view(self.current_instructions@) =~= ops_view(oc).push(op@));
    }

    fn emit_copy(&mut self, dest: IrReg, v: Operand)
        ensures
            final(self)@ == emit(old(self)@, copy_op(dest, v)),
    {
        match v {
            Operand::Imm(x) => self.emit(IrOp::AssignImm { dest, value: x }),
            Operand::Reg(src) => self.emit(IrOp::Add { dest, lhs: Operand::Reg(src), rhs: Operand::Imm(0) }),
        }
    }

    fn push_scope(&mut self)
        ensures
            final(self)@ == push_sym_scope(old(self)@),
    {
        self.symbol_table.push(Vec::new());
        assert(self@.symbols =~~= push_sym_scope(old(self)@).symbols);
    }

    fn pop_scope(&mut self)
        ensures
            final(self)@ == pop_sym_scope(old(self)@),
    {
        if self.symbol_table.len() > 0 {
            self.symbol_table.pop();
            assert(self@.symbols =~~= pop_sym_scope(old(self)@).symbols);
        }
    }

    fn insert_symbol(&mut self, name: String, reg: IrReg, ty: Type)
        ensures
            final(self)@ == sym_insert(old(self)@, name@, reg, ty),
    {
        if self.symbol_table.len() == 0 {
            return;
        }
        let ghost name_v = name@;
        let mut sc = self.symbol_table.pop().unwrap();
        let ghost osc = sc@;
        match sym_scope_lookup(&sc, &name) {
            Some(j) => {
                sc.set(j, (name, (reg, ty)));
                assert(sym_scope_view(sc@) =~= sym_scope_view(osc).update(j as int, (name_v, (reg, ty))));
            },
            None => {
                sc.push((name, (reg, ty)));
                assert(sym_scope_view(sc@) =~= sym_scope_view(osc).push((name_v, (reg, ty))));
            },
        }
        self.symbol_table.push(sc);
        assert(self@.symbols =~~= sym_insert(old(self)@, name_v, reg, ty).symbols);
    }

    /// Whether every name that `expr` reads is bound.
    fn names_bound(&self, expr: &Expr) -> (r: bool)
        ensures
            r == expr_names_bound(expr@, self@),
        decreases expr,
    {
        match expr {
            Expr::Variable(name) | Expr::Move(name) => self.lookup_symbol(name).is_some(),
            Expr::Add(lhs, rhs) => self.names_bound(lhs) && self.names_bound(rhs),
            Expr::Deref(inner) => self.names_bound(inner),
            _ => true,
        }
    }

    /// Lowers an expression whose names are all bound; `None` where the
    /// registers are exhausted.
    fn lower_expr(&mut self, expr: &Expr) -> (r: Option<Operand>)
        requires
            expr_names_bound(expr@, old(self)@),
        ensures
            match lower_expr_spec(expr@, old(self)@) {
                Some((o, st)) => r == Some(o) && final(self)@ == st,
                None => r is None,
            },
        decreases expr,
    {
        match expr {
            Expr::LiteralInt(v) => Some(Operand::Imm(*v)),
            Expr::LiteralBool(b) => Some(Operand::Imm(if *b { 1 } else { 0 })),
            Expr::Variable(name) | Expr::Move(name) => {
                match self.lookup_symbol(name) {
                    Some((reg, _)) => Some(Operand::Reg(reg)),
                    None => None,
                }
            },
            Expr::Add(lhs, rhs) => {
                let ghost st0 = self@;
                let lhs_op = match self.lower_expr(lhs) {
                    Some(o) => o,
                    None => {
                        return None;
                    },
                };
                proof {
                    lemma_expr_frame(lhs@, st0);
                    lemma_names_bound_syms(rhs@, st0, self@);
                }
                let rhs_op = match self.lower_expr(rhs) {
                    Some(o) => o,
                    None => {
                        return None;
                    },
                };
                let dest = match self.alloc_reg() {
                    Some(d) => d,
                    None => {
                        return None;
                    },
                };
                self.emit(IrOp::Add { dest, lhs: lhs_op, rhs: rhs_op });
                Some(Operand::Reg(dest))
            },
            Expr::Deref(inner) => {
                let ptr_op = match self.lower_expr(inner) {
                    Some(o) => o,
                    None => {
                        return None;
                    },
                };
                let dest = match self.alloc_reg() {
                    Some(d) => d,
                    None => {
                        return None;
                    },
                };
                if let Operand::Reg(ptr_reg) = ptr_op {
                    if self.in_unsafe {
                        self.emit(IrOp::VolatileLoad { dest, ptr: ptr_reg });
                    } else {
                        self.emit(IrOp::Load { dest, ptr: ptr_reg });
                    }
                }
                Some(Operand::Reg(dest))
            },
            _ => Some(Operand::Imm(0)),
        }
    }

    /// Lowers a statement; `false` where lowering stops on an unbound name or
    /// on exhausted registers or labels.
    fn lower_stmt(&mut self, stmt: &Stmt) -> (ok: bool)
        ensures
            ok == lower_stmt_spec(stmt@, old(self)@) is Some,
            ok ==> final(self)@ == lower_stmt_spec(stmt@, old(self)@).unwrap(),
        decreases stmt,
    {
        match stmt {
            Stmt::Let(name, ty, expr) => {
                match ty {
                    Type::Owned(_) => {
                        let dest = match self.alloc_reg() {
                            Some(d) => d,
                            None => {
                                return false;
                            },
                        };
                        let size = match expr {
                            Expr::LiteralInt(sz) => *sz,
                            _ => 64,
                        };
                        self.emit(IrOp::Alloc { dest, size });
                        self.insert_symbol(name.clone(), dest, ty.copy_type());
                    },
                    Type::RawPtr(_) => {
                        let dest = match self.alloc_reg() {
                            Some(d) => d,
                            None => {
                                return false;
                            },
                        };
                        let addr = match expr {
                            Expr::LiteralInt(a) => *a,
                            _ => 0,
                        };
                        self.emit(IrOp::AssignImm { dest, value: addr });
                        self.insert_symbol(name.clone(), dest, ty.copy_type());
                    },
                    _ => {
                        if !self.names_bound(expr) {
                            proof {
                                lemma_unbound_name_fails(expr@, self@);
                            }
                            return false;
                        }
                        let val_op = match self.lower_expr(expr) {
                            Some(o) => o,
                            None => {
                                return false;
                            },
                        };
                        let dest = match self.alloc_reg() {
                            Some(d) => d,
                            None => {
                                return false;
                            },
                        };
                        self.emit_copy(dest, val_op);
                        self.insert_symbol(name.clone(), dest, ty.copy_type());
                    },
                }
                true
            },
            Stmt::Assign(lhs, rhs) => {
                if !self.names_bound(rhs) {
                    proof {
                        lemma_unbound_name_fails(rhs@, self@);
                    }
                    return false;
                }
                let rhs_op = match self.lower_expr(rhs) {
                    Some(o) => o,
                    None => {
                        return false;
                    },
                };
                if let Expr::Deref(inner) = lhs {
                    if let Expr::Variable(name) = &**inner {
                        assert((**inner)@ == ExprV::Variable(name@));
                        if let Some((ptr_reg, ty)) = self.lookup_symbol(name) {
                            let is_raw = match ty {
                                Type::RawPtr(_) => true,
                                _ => false,
                            };
                            if is_raw || self.in_unsafe {
                                self.emit(IrOp::VolatileStore { ptr: ptr_reg, value: rhs_op });
                            } else {
                                self.emit(IrOp::Store { ptr: ptr_reg, value: rhs_op });
                            }
                        }
                    }
                } else if let Expr::Variable(name) = lhs {
                    let dest = match self.alloc_reg() {
                        Some(d) => d,
                        None => {
                            return false;
                        },
                    };
                    self.emit_copy(dest, rhs_op);
                    if let Some((_, old_ty)) = self.lookup_symbol(name) {
                        self.insert_symbol(name.clone(), dest, old_ty);
                    }
                }
                true
            },
            Stmt::Block(stmts) => {
                self.push_scope();
                let ghost ss = stmts_view(stmts@);
                let ghost st0 = self@;
                assert(lower_seq_spec(ss, 0, st0) is None ==> lower_stmt_spec(stmt@, old(self)@) is None);
                let mut i: usize = 0;
                while i < stmts.len()
                    invariant
                        i <= stmts@.len(),
                        ss == stmts_view(stmts@),
                        *stmt == Stmt::Block(*stmts),
                        lower_seq_spec(ss, 0, st0) is None ==> lower_stmt_spec(stmt@, old(self)@) is None,
                        lower_seq_spec(ss, 0, st0) == lower_seq_spec(ss, i as int, self@),
                    decreases stmts@.len() - i,
                {
                    proof {
                        assert(decreases_to!(*stmt => stmt->Block_0));
                        assert(decreases_to!(*stmts => stmts@));
                        assert(decreases_to!(stmts@ => stmts@[i as int]));
                    }
                    let ghost sti = self@;
                    if !self.lower_stmt(&stmts[i]) {
                        assert(lower_seq_spec(ss, i as int, sti) is None);
                        return false;
                    }
                    i += 1;
                }
                self.pop_scope();
                true
            },
            Stmt::UnsafeBlock(stmts) => {
                let unsafe_label = match self.new_label("bb_unsafe") {
                    Some(l) => l,
                    None => {
                        return false;
                    },
                };
                let post_label = match self.new_label("bb_post_unsafe") {
                    Some(l) => l,
                    None => {
                        return false;
                    },
                };
                self.finish_block(Terminator::Jump(unsafe_label.clone()), unsafe_label);
                self.push_scope();
                let prev_unsafe = self.in_unsafe;
                self.in_unsafe = true;
                let ghost ss = stmts_view(stmts@);
                let ghost st0 = self@;
                assert(lower_seq_spec(ss, 0, st0) is None ==> lower_stmt_spec(stmt@, old(self)@) is None);
                let mut i: usize = 0;
                while i < stmts.len()
                    invariant
                        i <= stmts@.len(),
                        ss == stmts_view(stmts@),
                        *stmt == Stmt::UnsafeBlock(*stmts),
                        lower_seq_spec(ss, 0, st0) is None ==> lower_stmt_spec(stmt@, old(self)@) is None,
                        lower_seq_spec(ss, 0, st0) == lower_seq_spec(ss, i as int, self@),
                    decreases stmts@.len() - i,
                {
                    proof {
                        assert(decreases_to!(*stmt => stmt->UnsafeBlock_0));
                        assert(decreases_to!(*stmts => stmts@));
                        assert(decreases_to!(stmts@ => stmts@[i as int]));
                    }
                    let ghost sti = self@;
                    if !self.lower_stmt(&stmts[i]) {
                        assert(lower_seq_spec(ss, i as int, sti) is None);
                        return false;
                    }
                    i += 1;
                }
                self.in_unsafe = prev_unsafe;
                self.pop_scope();
                self.finish_block(Terminator::Jump(post_label.clone()), post_label);
                true
            },
            Stmt::SyntheticDrop(name) => {
                if let Some((ptr_reg, ty)) = self.lookup_symbol(name) {
                    if ty.is_affine() {
                        self.emit(IrOp::Free { ptr: ptr_reg });
                    }
                }
                true
            },
            Stmt::Return(expr) => {
                if !self.names_bound(expr) {
                    proof {
                        lemma_unbound_name_fails(expr@, self@);
                    }
                    return false;
                }
                let op = match self.lower_expr(expr) {
                    Some(o) => o,
                    None => {
                        return false;
                    },
                };
                let next_label = match self.new_label("bb_unreachable") {
                    Some(l) => l,
                    None => {
                        return false;
                    },
                };
                self.finish_block(Terminator::Return(Some(op)), next_label);
                true
            },
        }
    }

    /// Lowers `stmts` to the function `fn_name`, or `None` where lowering
    /// would stop on an unbound name or on exhausted registers or labels.
    pub fn try_lower_ast(self, stmts: &[Stmt], fn_name: &str) -> (r: Option<FunctionIr>)
        ensures
            r is Some <==> lower_seq_spec(stmts_view(stmts@), 0, self@) is Some,
            r matches Some(f) ==> f@ == lowered_function(stmts_view(stmts@), self@, fn_name@),
    {
        let mut v = self;
        let ghost ss = stmts_view(stmts@);
        let ghost st0 = v@;
        let mut i: usize = 0;
        while i < stmts.len()
            invariant
                i <= stmts@.len(),
                ss == stmts_view(stmts@),
                st0 == self@,
                lower_seq_spec(ss, 0, st0) == lower_seq_spec(ss, i as int, v@),
            decreases stmts@.len() - i,
        {
            let ghost sti = v@;
            if !v.lower_stmt(&stmts[i]) {
                assert(lower_seq_spec(ss, i as int, sti) is None);
                return None;
            }
            i += 1;
        }
        let ghost fin = v@;
        let last_bb = BasicBlock {
            label: v.current_label,
            instructions: v.current_instructions,
            terminator: Terminator::Halt,
        };
        let mut blocks = v.completed_blocks;
        let ghost ob = blocks@;
        blocks.push(last_bb);
        assert(blocks_view(blocks@) =~= blocks_view(ob).push(last_bb@));
        Some(FunctionIr { name: String::from_str(fn_name), blocks })
    }

    /// Lowers `stmts` to the function `fn_name`: the completed blocks, then the
    /// open block sealed with `Halt`. Every name the statements read must be
    /// bound where it is read.
    pub fn lower_ast(self, stmts: &[Stmt], fn_name: &str) -> (r: FunctionIr)
        requires
            lower_seq_spec(stmts_view(stmts@), 0, self@) is Some,
        ensures
            r@ == lowered_function(stmts_view(stmts@), self@, fn_name@),
    {
        match self.try_lower_ast(stmts, fn_name) {
            Some(f) => f,
            None => FunctionIr { name: String::from_str(fn_name), blocks: Vec::new() },
        }
    }

    fn lookup_symbol(&self, name: &String) -> (r: Option<(IrReg, Type)>)
        ensures
            r == sym_lookup(self@, name@),
    {
        let mut i: usize = self.symbol_table.len();
        while i > 0
            invariant
                i <= self.symbol_table@.len(),
                sym_lookup(self@, name@) == sym_lookup_from(self@.symbols, name@, i as int),
            decreases i,
        {
            match sym_scope_lookup(&self.symbol_table[i - 1], name) {
                Some(j) => {
                    let entry = &self.symbol_table[i - 1][j];
                    return Some((entry.1.0, entry.1.1.copy_type()));
                },
                None => {},
            }
            i -= 1;
        }
        None
    }
}


// ---------------------------------------------------------------------------
// Single assignment
// ---------------------------------------------------------------------------

/// The operations of the first `n` blocks, in order.
pub open spec fn flat_ops(bs: Seq<BasicBlockV>, n: int) -> Seq<IrOpV>
    decreases n,
{
    if n <= 0 || n > bs.len() {
        seq![]
    } else {
        flat_ops(bs, n - 1) + bs[n - 1].instructions
    }
}

/// All the operations of a function, block after block.
pub open spec fn function_ops(f: FunctionIrV) -> Seq<IrOpV> {
    flat_ops(f.blocks, f.blocks.len() as int)
}

/// No register is defined by two operations.
pub open spec fn single_assignment(ops: Seq<IrOpV>) -> bool {
    forall|i: int, j: int|
        0 <= i < j < ops.len() && (#[trigger] op_def(ops[i])) is Some ==> op_def(ops[i]) != #[trigger] op_def(ops[j])
}

/// Every register defined is numbered below `n`.
pub open spec fn defs_below(ops: Seq<IrOpV>, n: nat) -> bool {
    forall|i: int| 0 <= i < ops.len() ==> (#[trigger] op_def(ops[i]) matches Some(r) ==> r.0 < n)
}

/// The operations emitted so far: the completed blocks, then the open one.
pub open spec fn state_ops(st: LowerState) -> Seq<IrOpV> {
    flat_ops(st.completed, st.completed.len() as int) + st.current
}

/// Each register is defined once, and only registers already handed out are defined.
pub open spec fn ssa_inv(st: LowerState) -> bool {
    single_assignment(state_ops(st)) && defs_below(state_ops(st), st.next_reg)
}

proof fn lemma_flat_prefix(bs: Seq<BasicBlockV>, b: BasicBlockV, n: int)
    requires
        0 <= n <= bs.len(),
    ensures
        flat_ops(bs.push(b), n) == flat_ops(bs, n),
    decreases n,
{
    if n > 0 {
        lemma_flat_prefix(bs, b, n - 1);
    }
}

proof fn lemma_close_ops(st: LowerState, t: TerminatorV, l: Seq<char>)
    ensures
        state_ops(close_block(st, t, l)) == state_ops(st),
        close_block(st, t, l).next_reg == st.next_reg,
{
    let b = BasicBlockV { label: st.label, instructions: st.current, terminator: t };
    lemma_flat_prefix(st.completed, b, st.completed.len() as int);
    assert(state_ops(close_block(st, t, l)) =~= state_ops(st));
}

proof fn lemma_emit_ops(st: LowerState, op: IrOpV)
    ensures
        state_ops(emit(st, op)) == state_ops(st).push(op),
{
    assert(state_ops(emit(st, op)) =~= state_ops(st).push(op));
}

/// Emitting an operation that defines nothing keeps the invariant.
proof fn lemma_emit_nodef(st: LowerState, op: IrOpV)
    requires
        ssa_inv(st),
        op_def(op) is None,
    ensures
        ssa_inv(emit(st, op)),
{
    lemma_emit_ops(st, op);
    let ops = state_ops(emit(st, op));
    assert forall|i: int, j: int|
        0 <= i < j < ops.len() && (#[trigger] op_def(ops[i])) is Some implies op_def(ops[i]) != #[trigger] op_def(ops[j]) by {
        if j < ops.len() - 1 {
            assert(ops[i] == state_ops(st)[i] && ops[j] == state_ops(st)[j]);
        }
    }
    assert forall|i: int| 0 <= i < ops.len() implies (#[trigger] op_def(ops[i]) matches Some(r) ==> r.0 < emit(st, op).next_reg) by {
        if i < ops.len() - 1 {
            assert(ops[i] == state_ops(st)[i]);
        }
    }
}

/// Emitting an operation that defines the register just handed out keeps the invariant.
proof fn lemma_emit_fresh(st: LowerState, d: IrReg, st1: LowerState, op: IrOpV)
    requires
        ssa_inv(st),
        fresh_reg(st) == Some((d, st1)),
        op_def(op) == Some(d) || op_def(op) is None,
    ensures
        ssa_inv(emit(st1, op)),
        ssa_inv(st1),
{
    assert(state_ops(st1) == state_ops(st));
    lemma_emit_ops(st1, op);
    let ops = state_ops(emit(st1, op));
    assert forall|i: int, j: int|
        0 <= i < j < ops.len() && (#[trigger] op_def(ops[i])) is Some implies op_def(ops[i]) != #[trigger] op_def(ops[j]) by {
        assert(ops[i] == state_ops(st)[i]);
        if j < ops.len() - 1 {
            assert(ops[j] == state_ops(st)[j]);
        }
    }
    assert forall|i: int| 0 <= i < ops.len() implies (#[trigger] op_def(ops[i]) matches Some(r) ==> r.0 < emit(st1, op).next_reg) by {
        if i < ops.len() - 1 {
            assert(ops[i] == state_ops(st)[i]);
        }
    }
}

proof fn lemma_sym_insert_ops(st: LowerState, name: Seq<char>, reg: IrReg, ty: Type)
    ensures
        state_ops(sym_insert(st, name, reg, ty)) == state_ops(st),
        sym_insert(st, name, reg, ty).next_reg == st.next_reg,
{
}

proof fn lemma_ssa_expr(e: ExprV, st: LowerState)
    requires
        ssa_inv(st),
    ensures
        lower_expr_spec(e, st) matches Some((_, st1)) ==> ssa_inv(st1),
    decreases e,
{
    match e {
        ExprV::Add(l, r) => {
            lemma_ssa_expr(*l, st);
            if let Some((lo, st1)) = lower_expr_spec(*l, st) {
                lemma_ssa_expr(*r, st1);
                if let Some((ro, st2)) = lower_expr_spec(*r, st1) {
                    if let Some((dest, st3)) = fresh_reg(st2) {
                        lemma_emit_fresh(st2, dest, st3, IrOpV::Add { dest, lhs: lo, rhs: ro });
                    }
                }
            }
        },
        ExprV::Deref(inner) => {
            lemma_ssa_expr(*inner, st);
            if let Some((p, st1)) = lower_expr_spec(*inner, st) {
                if let Some((dest, st2)) = fresh_reg(st1) {
                    if let Operand::Reg(ptr) = p {
                        lemma_emit_fresh(st1, dest, st2, IrOpV::VolatileLoad { dest, ptr });
                        lemma_emit_fresh(st1, dest, st2, IrOpV::Load { dest, ptr });
                    } else {
                        assert(state_ops(st2) == state_ops(st1));
                    }
                }
            }
        },
        _ => {},
    }
}

proof fn lemma_ssa_stmt(s: StmtV, st: LowerState)
    requires
        ssa_inv(st),
    ensures
        lower_stmt_spec(s, st) matches Some(st1) ==> ssa_inv(st1),
    decreases s, 0int,
{
    match s {
        StmtV::Let(name, ty, e) => {
            match ty {
                Type::Owned(_) => {
                    if let Some((dest, st1)) = fresh_reg(st) {
                        let size: u64 = match e {
                            ExprV::LiteralInt(v) => v,
                            _ => 64,
                        };
                        lemma_emit_fresh(st, dest, st1, IrOpV::Alloc { dest, size });
                        lemma_sym_insert_ops(emit(st1, IrOpV::Alloc { dest, size }), name, dest, ty);
                    }
                },
                Type::RawPtr(_) => {
                    if let Some((dest, st1)) = fresh_reg(st) {
                        let addr: u64 = match e {
                            ExprV::LiteralInt(v) => v,
                            _ => 0,
                        };
                        lemma_emit_fresh(st, dest, st1, IrOpV::AssignImm { dest, value: addr });
                        lemma_sym_insert_ops(emit(st1, IrOpV::AssignImm { dest, value: addr }), name, dest, ty);
                    }
                },
                _ => {
                    lemma_ssa_expr(e, st);
                    if let Some((v, st1)) = lower_expr_spec(e, st) {
                        if let Some((dest, st2)) = fresh_reg(st1) {
                            lemma_emit_fresh(st1, dest, st2, copy_op(dest, v));
                            lemma_sym_insert_ops(emit(st2, copy_op(dest, v)), name, dest, ty);
                        }
                    }
                },
            }
        },
        StmtV::Assign(lhs, rhs) => {
            lemma_ssa_expr(rhs, st);
            if let Some((v, st1)) = lower_expr_spec(rhs, st) {
                match lhs {
                    ExprV::Deref(inner) => {
                        if let ExprV::Variable(name) = *inner {
                            if let Some((ptr, ty)) = sym_lookup(st1, name) {
                                lemma_emit_nodef(st1, IrOpV::VolatileStore { ptr, value: v });
                                lemma_emit_nodef(st1, IrOpV::Store { ptr, value: v });
                            }
                        }
                    },
                    ExprV::Variable(name) => {
                        if let Some((dest, st2)) = fresh_reg(st1) {
                            lemma_emit_fresh(st1, dest, st2, copy_op(dest, v));
                            let st3 = emit(st2, copy_op(dest, v));
                            if let Some((_, old_ty)) = sym_lookup(st3, name) {
                                lemma_sym_insert_ops(st3, name, dest, old_ty);
                            }
                        }
                    },
                    _ => {},
                }
            }
        },
        StmtV::Block(ss) => {
            assert(state_ops(push_sym_scope(st)) == state_ops(st));
            lemma_ssa_seq(ss, 0, push_sym_scope(st));
            if let Some(st1) = lower_seq_spec(ss, 0, push_sym_scope(st)) {
                assert(state_ops(pop_sym_scope(st1)) == state_ops(st1));
            }
        },
        StmtV::UnsafeBlock(ss) => {
            if let Some((unsafe_label, st1)) = fresh_label(st, "bb_unsafe"@) {
                if let Some((post_label, st2)) = fresh_label(st1, "bb_post_unsafe"@) {
                    assert(state_ops(st2) == state_ops(st));
                    let st3 = close_block(st2, TerminatorV::Jump(unsafe_label), unsafe_label);
                    lemma_close_ops(st2, TerminatorV::Jump(unsafe_label), unsafe_label);
                    let st4 = LowerState { in_unsafe: true, ..push_sym_scope(st3) };
                    assert(state_ops(st4) == state_ops(st3));
                    lemma_ssa_seq(ss, 0, st4);
                    if let Some(st5) = lower_seq_spec(ss, 0, st4) {
                        let st6 = pop_sym_scope(LowerState { in_unsafe: st.in_unsafe, ..st5 });
                        assert(state_ops(st6) == state_ops(st5));
                        lemma_close_ops(st6, TerminatorV::Jump(post_label), post_label);
                    }
                }
            }
        },
        StmtV::SyntheticDrop(name) => {
            if let Some((ptr, ty)) = sym_lookup(st, name) {
                lemma_emit_nodef(st, IrOpV::Free { ptr });
            }
        },
        StmtV::Return(e) => {
            lemma_ssa_expr(e, st);
            if let Some((v, st1)) = lower_expr_spec(e, st) {
                if let Some((next, st2)) = fresh_label(st1, "bb_unreachable"@) {
                    assert(state_ops(st2) == state_ops(st1));
                    lemma_close_ops(st2, TerminatorV::Return(Some(v)), next);
                }
            }
        },
    }
}

proof fn lemma_ssa_seq(ss: Seq<StmtV>, i: int, st: LowerState)
    requires
        ssa_inv(st),
    ensures
        lower_seq_spec(ss, i, st) matches Some(st1) ==> ssa_inv(st1),
    decreases ss, ss.len() - i,
{
    if 0 <= i < ss.len() {
        lemma_ssa_stmt(ss[i], st);
        if let Some(st1) = lower_stmt_spec(ss[i], st) {
            lemma_ssa_seq(ss, i + 1, st1);
        }
    }
}

/// Static single assignment: in the function that lowering produces, no
/// virtual register is defined by two operations.
pub proof fn lemma_lowering_single_assignment(ss: Seq<StmtV>, name: Seq<char>)
    requires
        lower_seq_spec(ss, 0, initial_state()) is Some,
    ensures
        single_assignment(function_ops(lowered_function(ss, initial_state(), name))),
{
    assert(state_ops(initial_state()) =~= seq![]);
    lemma_ssa_seq(ss, 0, initial_state());
    let fin = lower_seq_spec(ss, 0, initial_state()).unwrap();
    let b = BasicBlockV { label: fin.label, instructions: fin.current, terminator: TerminatorV::Halt };
    lemma_flat_prefix(fin.completed, b, fin.completed.len() as int);
    assert(function_ops(lowered_function(ss, initial_state(), name)) =~= state_ops(fin));
}


// ---------------------------------------------------------------------------
// Scopes
// ---------------------------------------------------------------------------

proof fn lemma_sym_index_bounds(sc: SymScopeV, name: Seq<char>, k: int)
    requires
        0 <= k,
    ensures
        sym_index_from(sc, name, k) matches Some(j) ==> k <= j < sc.len() && sc[j].0 == name,
    decreases sc.len() - k,
{
    if k < sc.len() && sc[k].0 != name {
        lemma_sym_index_bounds(sc, name, k + 1);
    }
}

proof fn lemma_sym_index_update(sc: SymScopeV, j: int, x: (Seq<char>, (IrReg, Type)), name: Seq<char>, k: int)
    requires
        0 <= j < sc.len(),
        0 <= k,
        x.0 == sc[j].0,
    ensures
        sym_index_from(sc.update(j, x), name, k) == sym_index_from(sc, name, k),
    decreases sc.len() - k,
{
    if k < sc.len() {
        lemma_sym_index_update(sc, j, x, name, k + 1);
    }
}

proof fn lemma_sym_index_push_new(sc: SymScopeV, x: (Seq<char>, (IrReg, Type)), k: int)
    requires
        0 <= k <= sc.len(),
        sym_index_from(sc, x.0, k) is None,
    ensures
        sym_index_from(sc.push(x), x.0, k) == Some(sc.len() as int),
    decreases sc.len() - k,
{
    if k < sc.len() {
        lemma_sym_index_push_new(sc, x, k + 1);
    }
}

/// A name bound in the innermost scope reads back the register and the type
/// it was bound to.
pub proof fn lemma_symbol_read_after_bind(st: LowerState, name: Seq<char>, reg: IrReg, ty: Type)
    requires
        st.symbols.len() > 0,
    ensures
        sym_lookup(sym_insert(st, name, reg, ty), name) == Some((reg, ty)),
{
    let last = st.symbols.len() - 1;
    let sc = st.symbols[last];
    lemma_sym_index_bounds(sc, name, 0);
    match sym_index_from(sc, name, 0) {
        Some(j) => {
            lemma_sym_index_update(sc, j, (name, (reg, ty)), name, 0);
        },
        None => {
            lemma_sym_index_push_new(sc, (name, (reg, ty)), 0);
        },
    }
}

proof fn lemma_sym_insert_frame_all(st: LowerState)
    requires
        st.symbols.len() > 0,
    ensures
        forall|x: LowerState, name: Seq<char>, reg: IrReg, ty: Type|
            x.symbols == st.symbols && x.in_unsafe == st.in_unsafe ==> same_frame(#[trigger] sym_insert(x, name, reg, ty), st),
{
    assert forall|x: LowerState, name: Seq<char>, reg: IrReg, ty: Type|
        x.symbols == st.symbols && x.in_unsafe == st.in_unsafe implies same_frame(#[trigger] sym_insert(x, name, reg, ty), st) by {
        assert(sym_insert(x, name, reg, ty).symbols.drop_last() =~= st.symbols.drop_last());
    }
}

/// The outer scopes and the `unsafe` mode of a state, which lowering one
/// statement leaves as they were.
pub open spec fn same_frame(a: LowerState, b: LowerState) -> bool {
    &&& a.symbols.len() == b.symbols.len()
    &&& a.symbols.drop_last() == b.symbols.drop_last()
    &&& a.in_unsafe == b.in_unsafe
}

proof fn lemma_expr_frame(e: ExprV, st: LowerState)
    ensures
        lower_expr_spec(e, st) matches Some((_, st1)) ==> st1.symbols == st.symbols && st1.in_unsafe == st.in_unsafe,
    decreases e,
{
    match e {
        ExprV::Add(l, r) => {
            lemma_expr_frame(*l, st);
            if let Some((lo, st1)) = lower_expr_spec(*l, st) {
                lemma_expr_frame(*r, st1);
            }
        },
        ExprV::Deref(inner) => {
            lemma_expr_frame(*inner, st);
        },
        _ => {},
    }
}

/// Lowering a statement changes at most the innermost scope: the outer
/// scopes, the number of scopes and the `unsafe` mode are kept.
pub proof fn lemma_stmt_keeps_frame(s: StmtV, st: LowerState)
    requires
        st.symbols.len() > 0,
    ensures
        lower_stmt_spec(s, st) matches Some(st1) ==> same_frame(st1, st),
    decreases s, 0int,
{
    match s {
        StmtV::Let(name, ty, e) => {
            lemma_expr_frame(e, st);
            lemma_sym_insert_frame_all(st);
        },
        StmtV::Assign(lhs, rhs) => {
            lemma_expr_frame(rhs, st);
            lemma_sym_insert_frame_all(st);
        },
        StmtV::Block(ss) => {
            let inner = push_sym_scope(st);
            lemma_seq_keeps_frame(ss, 0, inner);
            if let Some(st1) = lower_seq_spec(ss, 0, inner) {
                assert(st1.symbols.drop_last() == inner.symbols.drop_last());
                assert(inner.symbols.drop_last() =~= st.symbols);
            }
        },
        StmtV::UnsafeBlock(ss) => {
            if let Some((unsafe_label, st1)) = fresh_label(st, "bb_unsafe"@) {
                if let Some((post_label, st2)) = fresh_label(st1, "bb_post_unsafe"@) {
                    let st3 = close_block(st2, TerminatorV::Jump(unsafe_label), unsafe_label);
                    let st4 = LowerState { in_unsafe: true, ..push_sym_scope(st3) };
                    lemma_seq_keeps_frame(ss, 0, st4);
                    if let Some(st5) = lower_seq_spec(ss, 0, st4) {
                        assert(st5.symbols.drop_last() == st4.symbols.drop_last());
                        assert(st4.symbols.drop_last() =~= st.symbols);
                    }
                }
            }
        },
        StmtV::Return(e) => {
            lemma_expr_frame(e, st);
        },
        _ => {},
    }
}

/// Lowering statements in order keeps the frame, as each statement does.
pub proof fn lemma_seq_keeps_frame(ss: Seq<StmtV>, i: int, st: LowerState)
    requires
        st.symbols.len() > 0,
    ensures
        lower_seq_spec(ss, i, st) matches Some(st1) ==> same_frame(st1, st),
    decreases ss, ss.len() - i,
{
    if 0 <= i < ss.len() {
        lemma_stmt_keeps_frame(ss[i], st);
        if let Some(st1) = lower_stmt_spec(ss[i], st) {
            lemma_seq_keeps_frame(ss, i + 1, st1);
        }
    }
}

/// A block, `unsafe` or not, gives back the symbol table and the `unsafe`
/// mode it found: what it binds, and what it rebinds, is gone after it.
pub proof fn lemma_block_restores_scope(s: StmtV, st: LowerState)
    requires
        st.symbols.len() > 0,
        s is Block || s is UnsafeBlock,
    ensures
        lower_stmt_spec(s, st) matches Some(st1) ==> st1.symbols == st.symbols && st1.in_unsafe == st.in_unsafe,
{
    match s {
        StmtV::Block(ss) => {
            let inner = push_sym_scope(st);
            lemma_seq_keeps_frame(ss, 0, inner);
            if let Some(st1) = lower_seq_spec(ss, 0, inner) {
                assert(inner.symbols.drop_last() =~= st.symbols);
            }
        },
        StmtV::UnsafeBlock(ss) => {
            if let Some((unsafe_label, st1)) = fresh_label(st, "bb_unsafe"@) {
                if let Some((post_label, st2)) = fresh_label(st1, "bb_post_unsafe"@) {
                    let st3 = close_block(st2, TerminatorV::Jump(unsafe_label), unsafe_label);
                    let st4 = LowerState { in_unsafe: true, ..push_sym_scope(st3) };
                    lemma_seq_keeps_frame(ss, 0, st4);
                    if let Some(st5) = lower_seq_spec(ss, 0, st4) {
                        assert(st4.symbols.drop_last() =~= st.symbols);
                    }
                }
            }
        },
        _ => {},
    }
}

/// A write through a raw pointer, and any write through a pointer inside
/// `unsafe`, is volatile: it becomes one `VolatileStore` to the pointer's
/// register, after the code of the value.
pub proof fn lemma_raw_pointer_store_is_volatile(name: Seq<char>, rhs: ExprV, st: LowerState)
    requires
        lower_expr_spec(rhs, st) is Some,
        sym_lookup(st, name) matches Some((_, ty)) && (ty is RawPtr || st.in_unsafe),
    ensures
        ({
            let (v, st1) = lower_expr_spec(rhs, st).unwrap();
            let ptr = sym_lookup(st, name).unwrap().0;
            lower_stmt_spec(StmtV::Assign(ExprV::Deref(Box::new(ExprV::Variable(name))), rhs), st) == Some(
                emit(st1, IrOpV::VolatileStore { ptr, value: v }),
            )
        }),
{
    lemma_expr_frame(rhs, st);
}

/// The drop of an owned binding frees the register that holds it.
pub proof fn lemma_owned_drop_frees(name: Seq<char>, st: LowerState)
    requires
        sym_lookup(st, name) matches Some((_, ty)) && type_is_affine(ty),
    ensures
        lower_stmt_spec(StmtV::SyntheticDrop(name), st) == Some(
            emit(st, IrOpV::Free { ptr: sym_lookup(st, name).unwrap().0 }),
        ),
{
}

/// An owned binding is allocated in a fresh register, and its drop frees
/// that same register: lowering `let name: owned T = e;` and then its drop
/// appends an `Alloc` and a `Free` of one register to the open block.
pub proof fn lemma_owned_alloc_and_free_match(name: Seq<char>, inner: Box<Type>, e: ExprV, st: LowerState)
    requires
        st.symbols.len() > 0,
        st.next_reg < usize::MAX,
    ensures
        ({
            let dest = IrReg(st.next_reg as usize);
            let size: u64 = match e {
                ExprV::LiteralInt(v) => v,
                _ => 64,
            };
            let st1 = lower_stmt_spec(StmtV::Let(name, Type::Owned(inner), e), st).unwrap();
            &&& lower_stmt_spec(StmtV::Let(name, Type::Owned(inner), e), st) is Some
            &&& lower_stmt_spec(StmtV::SyntheticDrop(name), st1) is Some
            &&& lower_stmt_spec(StmtV::SyntheticDrop(name), st1).unwrap().current == st.current + seq![
                IrOpV::Alloc { dest, size },
                IrOpV::Free { ptr: dest },
            ]
        }),
{
    let dest = IrReg(st.next_reg as usize);
    let size: u64 = match e {
        ExprV::LiteralInt(v) => v,
        _ => 64,
    };
    let st1 = fresh_reg(st).unwrap().1;
    let st2 = emit(st1, IrOpV::Alloc { dest, size });
    lemma_symbol_read_after_bind(st2, name, dest, Type::Owned(inner));
    let st3 = sym_insert(st2, name, dest, Type::Owned(inner));
    assert(st3.current == st.current.push(IrOpV::Alloc { dest, size }));
    assert(st3.current.push(IrOpV::Free { ptr: dest }) =~= st.current + seq![
        IrOpV::Alloc { dest, size },
        IrOpV::Free { ptr: dest },
    ]);
}


// ---------------------------------------------------------------------------
// Fresh registers
// ---------------------------------------------------------------------------

/// Going from `a` to `b`, lowering only appended operations, did not lower
/// the register counter, and the operations it appended define pairwise
/// distinct registers, each handed out in between: numbered from `a`'s
/// counter up to below `b`'s.
pub open spec fn defines_fresh(a: LowerState, b: LowerState) -> bool {
    let oa = state_ops(a);
    let ob = state_ops(b);
    &&& a.next_reg <= b.next_reg
    &&& oa.len() <= ob.len()
    &&& ob.take(oa.len() as int) == oa
    &&& forall|i: int|
        oa.len() <= i < ob.len() ==> (#[trigger] op_def(ob[i]) matches Some(r) ==> a.next_reg <= r.0 < b.next_reg)
    &&& forall|i: int, j: int|
        oa.len() <= i < j < ob.len() && (#[trigger] op_def(ob[i])) is Some ==> op_def(ob[i]) != #[trigger] op_def(
            ob[j],
        )
}

proof fn lemma_fresh_same_ops(a: LowerState, b: LowerState)
    requires
        state_ops(a) == state_ops(b),
        a.next_reg <= b.next_reg,
    ensures
        defines_fresh(a, b),
{
    assert(state_ops(b).take(state_ops(a).len() as int) =~= state_ops(a));
}

proof fn lemma_fresh_trans(a: LowerState, b: LowerState, c: LowerState)
    requires
        defines_fresh(a, b),
        defines_fresh(b, c),
    ensures
        defines_fresh(a, c),
{
    let oa = state_ops(a);
    let ob = state_ops(b);
    let oc = state_ops(c);
    assert(oc.take(oa.len() as int) =~= oc.take(ob.len() as int).take(oa.len() as int));
    assert forall|i: int| oa.len() <= i < oc.len() implies (#[trigger] op_def(oc[i]) matches Some(r) ==> a.next_reg
        <= r.0 < c.next_reg) by {
        if i < ob.len() {
            assert(oc[i] == oc.take(ob.len() as int)[i]);
            assert(op_def(ob[i]) == op_def(oc[i]));
        }
    }
    assert forall|i: int, j: int|
        oa.len() <= i < j < oc.len() && (#[trigger] op_def(oc[i])) is Some implies op_def(oc[i]) != #[trigger] op_def(
            oc[j],
        ) by {
        if j < ob.len() {
            assert(oc[i] == oc.take(ob.len() as int)[i]);
            assert(oc[j] == oc.take(ob.len() as int)[j]);
            assert(op_def(ob[i]) == op_def(oc[i]));
            assert(op_def(ob[j]) == op_def(oc[j]));
        } else if i < ob.len() {
            assert(oc[i] == oc.take(ob.len() as int)[i]);
            assert(op_def(ob[i]) == op_def(oc[i]));
        }
    }
}

proof fn lemma_fresh_emit_nodef(st: LowerState, op: IrOpV)
    requires
        op_def(op) is None,
    ensures
        defines_fresh(st, emit(st, op)),
{
    lemma_emit_ops(st, op);
    assert(state_ops(emit(st, op)).take(state_ops(st).len() as int) =~= state_ops(st));
}

proof fn lemma_fresh_emit_def(st: LowerState, d: IrReg, st1: LowerState, op: IrOpV)
    requires
        fresh_reg(st) == Some((d, st1)),
        op_def(op) == Some(d),
    ensures
        defines_fresh(st, emit(st1, op)),
        defines_fresh(st, st1),
{
    assert(state_ops(st1) == state_ops(st));
    lemma_fresh_same_ops(st, st1);
    lemma_emit_ops(st1, op);
    assert(state_ops(emit(st1, op)).take(state_ops(st).len() as int) =~= state_ops(st));
}

proof fn lemma_fresh_expr(e: ExprV, st: LowerState)
    ensures
        lower_expr_spec(e, st) matches Some((_, st1)) ==> defines_fresh(st, st1),
    decreases e,
{
    match e {
        ExprV::Add(l, r) => {
            lemma_fresh_expr(*l, st);
            if let Some((lo, st1)) = lower_expr_spec(*l, st) {
                lemma_fresh_expr(*r, st1);
                if let Some((ro, st2)) = lower_expr_spec(*r, st1) {
                    if let Some((dest, st3)) = fresh_reg(st2) {
                        lemma_fresh_emit_def(st2, dest, st3, IrOpV::Add { dest, lhs: lo, rhs: ro });
                        lemma_fresh_trans(st, st1, st2);
                        lemma_fresh_trans(st, st2, emit(st3, IrOpV::Add { dest, lhs: lo, rhs: ro }));
                    }
                }
            }
        },
        ExprV::Deref(inner) => {
            lemma_fresh_expr(*inner, st);
            if let Some((p, st1)) = lower_expr_spec(*inner, st) {
                if let Some((dest, st2)) = fresh_reg(st1) {
                    lemma_fresh_emit_def(st1, dest, st2, IrOpV::VolatileLoad { dest, ptr: IrReg(0) });
                    lemma_fresh_trans(st, st1, st2);
                    if let Operand::Reg(ptr) = p {
                        lemma_fresh_emit_def(st1, dest, st2, IrOpV::VolatileLoad { dest, ptr });
                        lemma_fresh_emit_def(st1, dest, st2, IrOpV::Load { dest, ptr });
                        lemma_fresh_trans(st, st1, emit(st2, IrOpV::VolatileLoad { dest, ptr }));
                        lemma_fresh_trans(st, st1, emit(st2, IrOpV::Load { dest, ptr }));
                    }
                }
            }
        },
        _ => {
            lemma_fresh_same_ops(st, st);
        },
    }
}

/// Lowering one statement defines only fresh registers: the operations it
/// appends define pairwise distinct registers, each numbered from the
/// counter before the statement up to below the counter after it.
pub proof fn lemma_statement_defines_fresh_registers(s: StmtV, st: LowerState)
    ensures
        lower_stmt_spec(s, st) matches Some(st1) ==> defines_fresh(st, st1),
    decreases s, 0int,
{
    match s {
        StmtV::Let(name, ty, e) => {
            match ty {
                Type::Owned(_) => {
                    if let Some((dest, st1)) = fresh_reg(st) {
                        let size: u64 = match e {
                            ExprV::LiteralInt(v) => v,
                            _ => 64,
                        };
                        let st2 = emit(st1, IrOpV::Alloc { dest, size });
                        lemma_fresh_emit_def(st, dest, st1, IrOpV::Alloc { dest, size });
                        lemma_sym_insert_ops(st2, name, dest, ty);
                        lemma_fresh_same_ops(st2, sym_insert(st2, name, dest, ty));
                        lemma_fresh_trans(st, st2, sym_insert(st2, name, dest, ty));
                    }
                },
                Type::RawPtr(_) => {
                    if let Some((dest, st1)) = fresh_reg(st) {
                        let addr: u64 = match e {
                            ExprV::LiteralInt(v) => v,
                            _ => 0,
                        };
                        let st2 = emit(st1, IrOpV::AssignImm { dest, value: addr });
                        lemma_fresh_emit_def(st, dest, st1, IrOpV::AssignImm { dest, value: addr });
                        lemma_sym_insert_ops(st2, name, dest, ty);
                        lemma_fresh_same_ops(st2, sym_insert(st2, name, dest, ty));
                        lemma_fresh_trans(st, st2, sym_insert(st2, name, dest, ty));
                    }
                },
                _ => {
                    lemma_fresh_expr(e, st);
                    if let Some((v, st1)) = lower_expr_spec(e, st) {
                        if let Some((dest, st2)) = fresh_reg(st1) {
                            let st3 = emit(st2, copy_op(dest, v));
                            lemma_fresh_emit_def(st1, dest, st2, copy_op(dest, v));
                            lemma_fresh_trans(st, st1, st3);
                            lemma_sym_insert_ops(st3, name, dest, ty);
                            lemma_fresh_same_ops(st3, sym_insert(st3, name, dest, ty));
                            lemma_fresh_trans(st, st3, sym_insert(st3, name, dest, ty));
                        }
                    }
                },
            }
        },
        StmtV::Assign(lhs, rhs) => {
            lemma_fresh_expr(rhs, st);
            if let Some((v, st1)) = lower_expr_spec(rhs, st) {
                lemma_fresh_same_ops(st1, st1);
                match lhs {
                    ExprV::Deref(inner) => {
                        if let ExprV::Variable(name) = *inner {
                            if let Some((ptr, ty)) = sym_lookup(st1, name) {
                                lemma_fresh_emit_nodef(st1, IrOpV::VolatileStore { ptr, value: v });
                                lemma_fresh_emit_nodef(st1, IrOpV::Store { ptr, value: v });
                                lemma_fresh_trans(st, st1, emit(st1, IrOpV::VolatileStore { ptr, value: v }));
                                lemma_fresh_trans(st, st1, emit(st1, IrOpV::Store { ptr, value: v }));
                            }
                        }
                    },
                    ExprV::Variable(name) => {
                        if let Some((dest, st2)) = fresh_reg(st1) {
                            let st3 = emit(st2, copy_op(dest, v));
                            lemma_fresh_emit_def(st1, dest, st2, copy_op(dest, v));
                            lemma_fresh_trans(st, st1, st3);
                            if let Some((_, old_ty)) = sym_lookup(st3, name) {
                                lemma_sym_insert_ops(st3, name, dest, old_ty);
                                lemma_fresh_same_ops(st3, sym_insert(st3, name, dest, old_ty));
                                lemma_fresh_trans(st, st3, sym_insert(st3, name, dest, old_ty));
                            }
                        }
                    },
                    _ => {},
                }
            }
        },
        StmtV::Block(ss) => {
            let inner = push_sym_scope(st);
            lemma_fresh_same_ops(st, inner);
            lemma_seq_defines_fresh_registers(ss, 0, inner);
            if let Some(st1) = lower_seq_spec(ss, 0, inner) {
                lemma_fresh_trans(st, inner, st1);
                lemma_fresh_same_ops(st1, pop_sym_scope(st1));
                lemma_fresh_trans(st, st1, pop_sym_scope(st1));
            }
        },
        StmtV::UnsafeBlock(ss) => {
            if let Some((unsafe_label, st1)) = fresh_label(st, "bb_unsafe"@) {
                if let Some((post_label, st2)) = fresh_label(st1, "bb_post_unsafe"@) {
                    let st3 = close_block(st2, TerminatorV::Jump(unsafe_label), unsafe_label);
                    lemma_close_ops(st2, TerminatorV::Jump(unsafe_label), unsafe_label);
                    let st4 = LowerState { in_unsafe: true, ..push_sym_scope(st3) };
                    lemma_fresh_same_ops(st, st4);
                    lemma_seq_defines_fresh_registers(ss, 0, st4);
                    if let Some(st5) = lower_seq_spec(ss, 0, st4) {
                        lemma_fresh_trans(st, st4, st5);
                        let st6 = pop_sym_scope(LowerState { in_unsafe: st.in_unsafe, ..st5 });
                        lemma_close_ops(st6, TerminatorV::Jump(post_label), post_label);
                        let st7 = close_block(st6, TerminatorV::Jump(post_label), post_label);
                        lemma_fresh_same_ops(st5, st7);
                        lemma_fresh_trans(st, st5, st7);
                    }
                }
            }
        },
        StmtV::SyntheticDrop(name) => {
            lemma_fresh_same_ops(st, st);
            if let Some((ptr, ty)) = sym_lookup(st, name) {
                lemma_fresh_emit_nodef(st, IrOpV::Free { ptr });
            }
        },
        StmtV::Return(e) => {
            lemma_fresh_expr(e, st);
            if let Some((v, st1)) = lower_expr_spec(e, st) {
                if let Some((next, st2)) = fresh_label(st1, "bb_unreachable"@) {
                    lemma_close_ops(st2, TerminatorV::Return(Some(v)), next);
                    let st3 = close_block(st2, TerminatorV::Return(Some(v)), next);
                    lemma_fresh_same_ops(st1, st3);
                    lemma_fresh_trans(st, st1, st3);
                }
            }
        },
    }
}

/// Lowering statements in order defines only fresh registers, as each
/// statement does.
pub proof fn lemma_seq_defines_fresh_registers(ss: Seq<StmtV>, i: int, st: LowerState)
    ensures
        lower_seq_spec(ss, i, st) matches Some(st1) ==> defines_fresh(st, st1),
    decreases ss, ss.len() - i,
{
    if 0 <= i < ss.len() {
        lemma_statement_defines_fresh_registers(ss[i], st);
        if let Some(st1) = lower_stmt_spec(ss[i], st) {
            lemma_seq_defines_fresh_registers(ss, i + 1, st1);
            if let Some(st2) = lower_seq_spec(ss, i + 1, st1) {
                lemma_fresh_trans(st, st1, st2);
            }
        }
    } else {
        lemma_fresh_same_ops(st, st);
    }
}

} // verus!
