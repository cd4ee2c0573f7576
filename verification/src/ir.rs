//! The intermediate representation: SSA virtual registers, three-address
//! operations, and basic blocks ending in a terminator; with their text forms.

use vstd::prelude::*;
use vstd::string::*;
use crate::text::{decimal, push_decimal};

verus! {

broadcast use vstd::string::group_string_axioms;

/// An SSA virtual register `%n`: defined once, never changed.
#[derive(Debug, Clone, Copy, PartialEq, Eq, Hash, Structural)]
pub struct IrReg(pub usize);

/// An operand: a virtual register or an immediate.
#[derive(Debug, Clone, Copy, PartialEq, Eq, Structural)]
pub enum Operand {
    Reg(IrReg),
    Imm(u64),
}

/// The operations of the IR.
#[derive(Debug, Clone, PartialEq, Eq)]
pub enum IrOp {
    /// dest = imm
    AssignImm { dest: IrReg, value: u64 },
    /// dest = alloc(size): the birth of an owned resource
    Alloc { dest: IrReg, size: u64 },
    /// dest = *ptr
    Load { dest: IrReg, ptr: IrReg },
    /// *ptr = value
    Store { ptr: IrReg, value: Operand },
    /// dest = volatile *ptr: never removed nor reordered
    VolatileLoad { dest: IrReg, ptr: IrReg },
    /// volatile *ptr = value: never removed nor reordered
    VolatileStore { ptr: IrReg, value: Operand },
    /// free(ptr): the release of an owned resource
    Free { ptr: IrReg },
    /// dest = lhs + rhs
    Add { dest: IrReg, lhs: Operand, rhs: Operand },
    /// dest = target(args)
    Call { dest: Option<IrReg>, target: String, args: Vec<Operand> },
}

/// The mathematical value of an operation.
pub enum IrOpV {
    AssignImm { dest: IrReg, value: u64 },
    Alloc { dest: IrReg, size: u64 },
    Load { dest: IrReg, ptr: IrReg },
    Store { ptr: IrReg, value: Operand },
    VolatileLoad { dest: IrReg, ptr: IrReg },
    VolatileStore { ptr: IrReg, value: Operand },
    Free { ptr: IrReg },
    Add { dest: IrReg, lhs: Operand, rhs: Operand },
    Call { dest: Option<IrReg>, target: Seq<char>, args: Seq<Operand> },
}

impl View for IrOp {
    type V = IrOpV;

    open spec fn view(&self) -> IrOpV {
        match *self {
            IrOp::AssignImm { dest, value } => IrOpV::AssignImm { dest, value },
            IrOp::Alloc { dest, size } => IrOpV::Alloc { dest, size },
            IrOp::Load { dest, ptr } => IrOpV::Load { dest, ptr },
            IrOp::Store { ptr, value } => IrOpV::Store { ptr, value },
            IrOp::VolatileLoad { dest, ptr } => IrOpV::VolatileLoad { dest, ptr },
            IrOp::VolatileStore { ptr, value } => IrOpV::VolatileStore { ptr, value },
            IrOp::Free { ptr } => IrOpV::Free { ptr },
            IrOp::Add { dest, lhs, rhs } => IrOpV::Add { dest, lhs, rhs },
            IrOp::Call { dest, target, args } => IrOpV::Call { dest, target: target@, args: args@ },
        }
    }
}

/// The terminator of a basic block.
#[derive(Debug, Clone, PartialEq, Eq)]
pub enum Terminator {
    Jump(String),
    BranchIf { cond: IrReg, then_bb: String, else_bb: String },
    Return(Option<Operand>),
    Halt,
}

pub enum TerminatorV {
    Jump(Seq<char>),
    BranchIf { cond: IrReg, then_bb: Seq<char>, else_bb: Seq<char> },
    Return(Option<Operand>),
    Halt,
}

impl View for Terminator {
    type V = TerminatorV;

    open spec fn view(&self) -> TerminatorV {
        match *self {
            Terminator::Jump(l) => TerminatorV::Jump(l@),
            Terminator::BranchIf { cond, then_bb, else_bb } => TerminatorV::BranchIf {
                cond,
                then_bb: then_bb@,
                else_bb: else_bb@,
            },
            Terminator::Return(o) => TerminatorV::Return(o),
            Terminator::Halt => TerminatorV::Halt,
        }
    }
}

/// A basic block: a label, straight-line operations, and one terminator.
#[derive(Debug, Clone, PartialEq, Eq)]
pub struct BasicBlock {
    pub label: String,
    pub instructions: Vec<IrOp>,
    pub terminator: Terminator,
}

pub struct BasicBlockV {
    pub label: Seq<char>,
    pub instructions: Seq<IrOpV>,
    pub terminator: TerminatorV,
}

/// The views of a list of operations.
pub open spec fn ops_view(v: Seq<IrOp>) -> Seq<IrOpV> {
    Seq::new(v.len(), |i: int| v[i]@)
}

impl View for BasicBlock {
    type V = BasicBlockV;

    open spec fn view(&self) -> BasicBlockV {
        BasicBlockV {
            label: self.label@,
            instructions: ops_view(self.instructions@),
            terminator: self.terminator@,
        }
    }
}

/// The control-flow graph of a function.
#[derive(Debug, Clone, PartialEq, Eq)]
pub struct FunctionIr {
    pub name: String,
    pub blocks: Vec<BasicBlock>,
}

pub struct FunctionIrV {
    pub name: Seq<char>,
    pub blocks: Seq<BasicBlockV>,
}

/// The views of a list of blocks.
pub open spec fn blocks_view(v: Seq<BasicBlock>) -> Seq<BasicBlockV> {
    Seq::new(v.len(), |i: int| v[i]@)
}

impl View for FunctionIr {
    type V = FunctionIrV;

    open spec fn view(&self) -> FunctionIrV {
        FunctionIrV { name: self.name@, blocks: blocks_view(self.blocks@) }
    }
}

/// The register an operation defines, if any.
pub open spec fn op_def(op: IrOpV) -> Option<IrReg> {
    match op {
        IrOpV::AssignImm { dest, .. } => Some(dest),
        IrOpV::Alloc { dest, .. } => Some(dest),
        IrOpV::Load { dest, .. } => Some(dest),
        IrOpV::VolatileLoad { dest, .. } => Some(dest),
        IrOpV::Add { dest, .. } => Some(dest),
        IrOpV::Call { dest, .. } => dest,
        _ => None,
    }
}

// ---------------------------------------------------------------------------
// Text forms
// ---------------------------------------------------------------------------

/// `%n`
pub open spec fn reg_text(r: IrReg) -> Seq<char> {
    "%"@ + decimal(r.0 as nat)
}

pub open spec fn operand_text(o: Operand) -> Seq<char> {
    match o {
        Operand::Reg(r) => reg_text(r),
        Operand::Imm(v) => decimal(v as nat),
    }
}

/// The operands separated by `, `.
pub open spec fn operands_text(args: Seq<Operand>) -> Seq<char>
    decreases args.len(),
{
    if args.len() == 0 {
        seq![]
    } else if args.len() == 1 {
        operand_text(args[0])
    } else {
        operands_text(args.drop_last()) + ", "@ + operand_text(args.last())
    }
}

/// The line of an operation, indented by two spaces.
pub open spec fn op_text(op: IrOpV) -> Seq<char> {
    match op {
        IrOpV::AssignImm { dest, value } => "  "@ + reg_text(dest) + " = imm "@ + decimal(value as nat),
        IrOpV::Alloc { dest, size } => "  "@ + reg_text(dest) + " = alloc "@ + decimal(size as nat) + " bytes"@,
        IrOpV::Load { dest, ptr } => "  "@ + reg_text(dest) + " = load ["@ + reg_text(ptr) + "]"@,
        IrOpV::Store { ptr, value } => "  store ["@ + reg_text(ptr) + "], "@ + operand_text(value),
        IrOpV::VolatileLoad { dest, ptr } => "  "@ + reg_text(dest) + " = volatile_load ["@ + reg_text(ptr)
            + "] ; [MMIO BARRIER]"@,
        IrOpV::VolatileStore { ptr, value } => "  volatile_store ["@ + reg_text(ptr) + "], "@ + operand_text(value)
            + " ; [MMIO BARRIER]"@,
        IrOpV::Free { ptr } => "  free "@ + reg_text(ptr) + " ; [@__sovereign_dealloc]"@,
        IrOpV::Add { dest, lhs, rhs } => "  "@ + reg_text(dest) + " = add "@ + operand_text(lhs) + ", "@
            + operand_text(rhs),
        IrOpV::Call { dest, target, args } => match dest {
            Some(d) => "  "@ + reg_text(d) + " = call "@ + target + "("@ + operands_text(args) + ")"@,
            None => "  call "@ + target + "("@ + operands_text(args) + ")"@,
        },
    }
}

pub open spec fn terminator_text(t: TerminatorV) -> Seq<char> {
    match t {
        TerminatorV::Jump(l) => "  jmp "@ + l,
        TerminatorV::BranchIf { cond, then_bb, else_bb } => "  branch_if "@ + reg_text(cond) + ", then: "@ + then_bb
            + ", else: "@ + else_bb,
        TerminatorV::Return(Some(o)) => "  ret "@ + operand_text(o),
        TerminatorV::Return(None) => "  ret"@,
        TerminatorV::Halt => "  halt ; [Ring-0 Panic / Halt]"@,
    }
}

/// The lines of the first `n` operations, each followed by a newline.
pub open spec fn ops_text(ops: Seq<IrOpV>, n: int) -> Seq<char>
    decreases n,
{
    if n <= 0 || n > ops.len() {
        seq![]
    } else {
        ops_text(ops, n - 1) + op_text(ops[n - 1]) + "\n"@
    }
}

/// `label:`, the operations, and the terminator, one per line.
pub open spec fn block_text(b: BasicBlockV) -> Seq<char> {
    b.label + ":\n"@ + ops_text(b.instructions, b.instructions.len() as int) + terminator_text(b.terminator) + "\n"@
}

/// The first `n` blocks, separated by empty lines.
pub open spec fn blocks_text(blocks: Seq<BasicBlockV>, n: int) -> Seq<char>
    decreases n,
{
    if n <= 0 || n > blocks.len() {
        seq![]
    } else if n == 1 {
        block_text(blocks[0])
    } else {
        blocks_text(blocks, n - 1) + "\n"@ + block_text(blocks[n - 1])
    }
}

/// `fn @name() {`, the blocks, and `}`.
pub open spec fn function_text(f: FunctionIrV) -> Seq<char> {
    "fn @"@ + f.name + "() {\n"@ + blocks_text(f.blocks, f.blocks.len() as int) + "}\n"@
}

impl IrReg {
    /// `%n`
    pub fn to_text(&self) -> (r: String)
        ensures
            r@ == reg_text(*self),
    {
        let mut s = String::from_str("%");
        push_decimal(&mut s, self.0 as u64);
        s
    }
}

fn push_operand(s: &mut String, o: &Operand)
    ensures
        final(s)@ == old(s)@ + operand_text(*o),
{
    match o {
        Operand::Reg(r) => {
            s.append("%");
            push_decimal(s, r.0 as u64);
            assert(final(s)@ =~= old(s)@ + operand_text(*o));
        },
        Operand::Imm(v) => push_decimal(s, *v),
    }
}

impl Operand {
    pub fn to_text(&self) -> (r: String)
        ensures
            r@ == operand_text(*self),
    {
        let mut s = String::new();
        push_operand(&mut s, self);
        assert(s@ =~= operand_text(*self));
        s
    }
}

fn push_reg(s: &mut String, r: IrReg)
    ensures
        final(s)@ == old(s)@ + reg_text(r),
{
    s.append("%");
    push_decimal(s, r.0 as u64);
    assert(final(s)@ =~= old(s)@ + reg_text(r));
}

fn push_operands(s: &mut String, args: &Vec<Operand>)
    ensures
        final(s)@ == old(s)@ + operands_text(args@),
{
    let mut k: usize = 0;
    while k < args.len()
        invariant
            k <= args@.len(),
            s@ == old(s)@ + operands_text(args@.take(k as int)),
        decreases args@.len() - k,
    {
        assert(args@.take(k + 1).drop_last() =~= args@.take(k as int));
        if k > 0 {
            s.append(", ");
        }
        push_operand(s, &args[k]);
        proof {
            if k == 0 {
                assert(args@.take(1)[0] == args@[0]);
            }
        }
        assert(s@ =~= old(s)@ + operands_text(args@.take(k + 1)));
        k += 1;
    }
    assert(args@.take(args@.len() as int) =~= args@);
}

fn push_op(s: &mut String, op: &IrOp)
    ensures
        final(s)@ == old(s)@ + op_text(op@),
{
    let ghost s0 = s@;
    match op {
        IrOp::AssignImm { dest, value } => {
            s.append("  ");
            push_reg(s, *dest);
            s.append(" = imm ");
            push_decimal(s, *value);
        },
        IrOp::Alloc { dest, size } => {
            s.append("  ");
            push_reg(s, *dest);
            s.append(" = alloc ");
            push_decimal(s, *size);
            s.append(" bytes");
        },
        IrOp::Load { dest, ptr } => {
            s.append("  ");
            push_reg(s, *dest);
            s.append(" = load [");
            push_reg(s, *ptr);
            s.append("]");
        },
        IrOp::Store { ptr, value } => {
            s.append("  store [");
            push_reg(s, *ptr);
            s.append("], ");
            push_operand(s, value);
        },
        IrOp::VolatileLoad { dest, ptr } => {
            s.append("  ");
            push_reg(s, *dest);
            s.append(" = volatile_load [");
            push_reg(s, *ptr);
            s.append("] ; [MMIO BARRIER]");
        },
        IrOp::VolatileStore { ptr, value } => {
            s.append("  volatile_store [");
            push_reg(s, *ptr);
            s.append("], ");
            push_operand(s, value);
            s.append(" ; [MMIO BARRIER]");
        },
        IrOp::Free { ptr } => {
            s.append("  free ");
            push_reg(s, *ptr);
            s.append(" ; [@__sovereign_dealloc]");
        },
        IrOp::Add { dest, lhs, rhs } => {
            s.append("  ");
            push_reg(s, *dest);
            s.append(" = add ");
            push_operand(s, lhs);
            s.append(", ");
            push_operand(s, rhs);
        },
        IrOp::Call { dest, target, args } => {
            match dest {
                Some(d) => {
                    s.append("  ");
                    push_reg(s, *d);
                    s.append(" = call ");
                },
                None => {
                    s.append("  call ");
                },
            }
            s.append(target.as_str());
            s.append("(");
            push_operands(s, args);
            s.append(")");
        },
    }
    assert(s@ =~= s0 + op_text(op@));
}

impl IrOp {
    /// The line of the operation, indented by two spaces.
    pub fn to_text(&self) -> (r: String)
        ensures
            r@ == op_text(self@),
    {
        let mut s = String::new();
        push_op(&mut s, self);
        assert(s@ =~= op_text(self@));
        s
    }
}

fn push_terminator(s: &mut String, t: &Terminator)
    ensures
        final(s)@ == old(s)@ + terminator_text(t@),
{
    let ghost s0 = s@;
    match t {
        Terminator::Jump(target) => {
            s.append("  jmp ");
            s.append(target.as_str());
        },
        Terminator::BranchIf { cond, then_bb, else_bb } => {
            s.append("  branch_if ");
            push_reg(s, *cond);
            s.append(", then: ");
            s.append(then_bb.as_str());
            s.append(", else: ");
            s.append(else_bb.as_str());
        },
        Terminator::Return(Some(op)) => {
            s.append("  ret ");
            push_operand(s, op);
        },
        Terminator::Return(None) => {
            s.append("  ret");
        },
        Terminator::Halt => {
            s.append("  halt ; [Ring-0 Panic / Halt]");
        },
    }
    assert(s@ =~= s0 + terminator_text(t@));
}

impl Terminator {
    pub fn to_text(&self) -> (r: String)
        ensures
            r@ == terminator_text(self@),
    {
        let mut s = String::new();
        push_terminator(&mut s, self);
        assert(s@ =~= terminator_text(self@));
        s
    }
}

fn push_block(s: &mut String, b: &BasicBlock)
    ensures
        final(s)@ == old(s)@ + block_text(b@),
{
    let ghost s0 = s@;
    s.append(b.label.as_str());
    s.append(":\n");
    let ghost s1 = s@;
    let ghost ops = ops_view(b.instructions@);
    let mut k: usize = 0;
    while k < b.instructions.len()
        invariant
            k <= b.instructions@.len(),
            ops == ops_view(b.instructions@),
            s@ == s1 + ops_text(ops, k as int),
        decreases b.instructions@.len() - k,
    {
        push_op(s, &b.instructions[k]);
        s.append("\n");
        assert(s@ =~= s1 + ops_text(ops, k + 1));
        k += 1;
    }
    push_terminator(s, &b.terminator);
    s.append("\n");
    assert(s@ =~= s0 + block_text(b@));
}

impl BasicBlock {
    pub fn to_text(&self) -> (r: String)
        ensures
            r@ == block_text(self@),
    {
        let mut s = String::new();
        push_block(&mut s, self);
        assert(s@ =~= block_text(self@));
        s
    }
}

impl FunctionIr {
    /// `fn @name() {`, the blocks separated by empty lines, and `}`.
    pub fn to_text(&self) -> (r: String)
        ensures
            r@ == function_text(self@),
    {
        let mut s = String::from_str("fn @");
        s.append(self.name.as_str());
        s.append("() {\n");
        let ghost s1 = s@;
        let ghost bs = blocks_view(self.blocks@);
        let mut i: usize = 0;
        while i < self.blocks.len()
            invariant
                i <= self.blocks@.len(),
                bs == blocks_view(self.blocks@),
                s@ == s1 + blocks_text(bs, i as int),
            decreases self.blocks@.len() - i,
        {
            if i > 0 {
                s.append("\n");
            }
            push_block(&mut s, &self.blocks[i]);
            assert(s@ =~= s1 + blocks_text(bs, i + 1));
            i += 1;
        }
        s.append("}\n");
        assert(s@ =~= function_text(self@));
        s
    }
}

} // verus!
