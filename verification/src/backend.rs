//! Assembly emission for bare-metal x86-64: from checked statements, and from
//! the SSA IR (with virtual registers, or with an allocation of them).

use vstd::prelude::*;
use vstd::string::*;
use crate::ast::{Expr, ExprV, Stmt, StmtV, Type, stmts_view};
use crate::ir::{IrReg, Operand, IrOp, IrOpV, Terminator, TerminatorV, BasicBlock, BasicBlockV, FunctionIr,
    FunctionIrV, ops_view, blocks_view, reg_text};
use crate::regalloc::{RegAssignment, RegLocation, location_of, location_text};
use crate::text::{decimal, hex_prefixed, push_decimal, push_hex_prefixed};

verus! {

broadcast use vstd::string::group_string_axioms;

/// The prologue of the kernel image.
pub open spec fn asm_header() -> Seq<char> {
    "; ==========================================\n"@ + "; SOVEREIGN COMPILER - C5-REAL ARCHITECTURE\n"@
        + "; TARGET: x86_64 Bare-Metal (Ring-0)\n"@ + "; ==========================================\n\n"@
        + ".global _start\n"@ + ".section .text\n\n"@ + "_start:\n"@ + "    ; --- Prólogo del Kernel ---\n"@
        + "    mov rbp, rsp\n\n"@
}

/// The halt loop that ends the image.
pub open spec fn asm_footer() -> Seq<char> {
    "\n    ; --- Kernel Panic / Halt Loop ---\n"@ + ".halt:\n"@ + "    cli\n"@ + "    hlt\n"@ + "    jmp .halt\n"@
}

/// `depth` levels of four-space indentation.
pub open spec fn indent(depth: nat) -> Seq<char>
    decreases depth,
{
    if depth == 0 {
        seq![]
    } else {
        indent((depth - 1) as nat) + "    "@
    }
}

/// The literal value a `let` binds (0 for anything but an integer literal).
pub open spec fn let_value(e: ExprV) -> u64 {
    match e {
        ExprV::LiteralInt(v) => v,
        _ => 0,
    }
}

/// The assembly of a statement: blocks are flattened (an `unsafe` block
/// between markers), each `let` loads its literal by the kind of its type, each
/// drop calls the kernel's deallocator; other statements emit nothing.
pub open spec fn stmt_asm(s: StmtV, depth: nat) -> Seq<char>
    decreases s, 0int,
{
    let ind = indent(depth);
    match s {
        StmtV::Block(ss) => stmts_asm(ss, depth, ss.len() as int),
        StmtV::UnsafeBlock(ss) => "\n"@ + ind + "> --- INICIO ESCOTILLA UNSAFE ---\n"@ + stmts_asm(ss, depth, ss.len() as int)
            + ind + "> --- FIN ESCOTILLA UNSAFE ---\n"@,
        StmtV::Let(name, ty, e) => {
            let val = let_value(e);
            match ty {
                Type::RawPtr(_) => ind + "mov rax, "@ + hex_prefixed(val as nat) + " ; [MMIO] "@ + name
                    + " = Dirección Física\n"@,
                Type::Owned(_) => ind + "mov rdi, "@ + decimal(val as nat) + " ; Preparar tamaño para alloc\n"@ + ind
                    + "call sys_alloc_os ; [ALLOC] "@ + name + " asume propiedad\n"@ + ind
                    + "mov rcx, rax ; Guardar puntero propietario\n"@,
                _ => ind + "mov rdx, "@ + decimal(val as nat) + " ; [ESCALAR] "@ + name + " = valor literal\n"@,
            }
        },
        StmtV::SyntheticDrop(name) => "\n"@ + ind + "// [DROP DETERMINISTA INYECTADO: "@ + name + "]\n"@ + ind
            + "mov rdi, rcx ; Recuperar puntero propietario\n"@ + ind
            + "call sys_free_os ; [FREE] Liberación inmediata sin GC\n"@,
        _ => seq![],
    }
}

/// The assembly of the first `n` statements.
pub open spec fn stmts_asm(ss: Seq<StmtV>, depth: nat, n: int) -> Seq<char>
    decreases ss, n,
{
    if n <= 0 || n > ss.len() {
        seq![]
    } else {
        stmts_asm(ss, depth, n - 1) + stmt_asm(ss[n - 1], depth)
    }
}

/// The whole image for a statement.
pub open spec fn bare_metal_asm(s: StmtV) -> Seq<char> {
    asm_header() + stmt_asm(s, 1) + asm_footer()
}

fn push_indent(code: &mut String, depth: usize)
    ensures
        final(code)@ == old(code)@ + indent(depth as nat),
{
    let mut k: usize = 0;
    while k < depth
        invariant
            k <= depth,
            code@ == old(code)@ + indent(k as nat),
        decreases depth - k,
    {
        code.append("    ");
        assert(code@ =~= old(code)@ + indent((k + 1) as nat));
        k += 1;
    }
    assert(code@ =~= old(code)@ + indent(depth as nat));
}

/// Appends the assembly of `stmt` at indentation `depth` to `code`: a block
/// appends its statements' assembly in order at the same depth, an `unsafe`
/// block does so between its two markers, a `let` and a drop append their
/// lines, and an assignment or a return appends nothing.
pub fn compile_stmt(stmt: &Stmt, code: &mut String, depth: usize)
    ensures
        final(code)@ == old(code)@ + stmt_asm(stmt@, depth as nat),
    decreases stmt,
{
    let ghost a0 = code@;
    match stmt {
        Stmt::Block(stmts) => {
            let ghost ss = stmts_view(stmts@);
            let mut i: usize = 0;
            while i < stmts.len()
                invariant
                    i <= stmts@.len(),
                    ss == stmts_view(stmts@),
                    *stmt == Stmt::Block(*stmts),
                    code@ == a0 + stmts_asm(ss, depth as nat, i as int),
                decreases stmts@.len() - i,
            {
                proof {
                    assert(decreases_to!(*stmt => stmt->Block_0));
                    assert(decreases_to!(*stmts => stmts@));
                    assert(decreases_to!(stmts@ => stmts@[i as int]));
                }
                compile_stmt(&stmts[i], code, depth);
                assert(code@ =~= a0 + stmts_asm(ss, depth as nat, i + 1));
                i += 1;
            }
        },
        Stmt::UnsafeBlock(stmts) => {
            code.append("\n");
            push_indent(code, depth);
            code.append("> --- INICIO ESCOTILLA UNSAFE ---\n");
            let ghost a1 = code@;
            let ghost ss = stmts_view(stmts@);
            let mut i: usize = 0;
            while i < stmts.len()
                invariant
                    i <= stmts@.len(),
                    ss == stmts_view(stmts@),
                    *stmt == Stmt::UnsafeBlock(*stmts),
                    code@ == a1 + stmts_asm(ss, depth as nat, i as int),
                decreases stmts@.len() - i,
            {
                proof {
                    assert(decreases_to!(*stmt => stmt->UnsafeBlock_0));
                    assert(decreases_to!(*stmts => stmts@));
                    assert(decreases_to!(stmts@ => stmts@[i as int]));
                }
                compile_stmt(&stmts[i], code, depth);
                assert(code@ =~= a1 + stmts_asm(ss, depth as nat, i + 1));
                i += 1;
            }
            push_indent(code, depth);
            code.append("> --- FIN ESCOTILLA UNSAFE ---\n");
            assert(code@ =~= a0 + stmt_asm(stmt@, depth as nat));
        },
        Stmt::Let(name, ty, expr) => {
            let val = match expr {
                Expr::LiteralInt(v) => *v,
                _ => 0,
            };
            match ty {
                Type::RawPtr(_) => {
                    push_indent(code, depth);
                    code.append("mov rax, ");
                    push_hex_prefixed(code, val);
                    code.append(" ; [MMIO] ");
                    code.append(name.as_str());
                    code.append(" = Dirección Física\n");
                },
                Type::Owned(_) => {
                    push_indent(code, depth);
                    code.append("mov rdi, ");
                    push_decimal(code, val);
                    code.append(" ; Preparar tamaño para alloc\n");
                    push_indent(code, depth);
                    code.append("call sys_alloc_os ; [ALLOC] ");
                    code.append(name.as_str());
                    code.append(" asume propiedad\n");
                    push_indent(code, depth);
                    code.append("mov rcx, rax ; Guardar puntero propietario\n");
                },
                _ => {
                    push_indent(code, depth);
                    code.append("mov rdx, ");
                    push_decimal(code, val);
                    code.append(" ; [ESCALAR] ");
                    code.append(name.as_str());
                    code.append(" = valor literal\n");
                },
            }
            assert(code@ =~= a0 + stmt_asm(stmt@, depth as nat));
        },
        Stmt::SyntheticDrop(name) => {
            code.append("\n");
            push_indent(code, depth);
            code.append("// [DROP DETERMINISTA INYECTADO: ");
            code.append(name.as_str());
            code.append("]\n");
            push_indent(code, depth);
            code.append("mov rdi, rcx ; Recuperar puntero propietario\n");
            push_indent(code, depth);
            code.append("call sys_free_os ; [FREE] Liberación inmediata sin GC\n");
            assert(code@ =~= a0 + stmt_asm(stmt@, depth as nat));
        },
        _ => {
            assert(code@ =~= a0 + stmt_asm(stmt@, depth as nat));
        },
    }
}

fn push_header(code: &mut String)
    ensures
        final(code)@ == old(code)@ + asm_header(),
{
    code.append("; ==========================================\n");
    code.append("; SOVEREIGN COMPILER - C5-REAL ARCHITECTURE\n");
    code.append("; TARGET: x86_64 Bare-Metal (Ring-0)\n");
    code.append("; ==========================================\n\n");
    code.append(".global _start\n");
    code.append(".section .text\n\n");
    code.append("_start:\n");
    code.append("    ; --- Prólogo del Kernel ---\n");
    code.append("    mov rbp, rsp\n\n");
    assert(final(code)@ =~= old(code)@ + asm_header());
}

fn push_footer(code: &mut String)
    ensures
        final(code)@ == old(code)@ + asm_footer(),
{
    code.append("\n    ; --- Kernel Panic / Halt Loop ---\n");
    code.append(".halt:\n");
    code.append("    cli\n");
    code.append("    hlt\n");
    code.append("    jmp .halt\n");
    assert(final(code)@ =~= old(code)@ + asm_footer());
}

proof fn lemma_stmts_asm_append(a: Seq<StmtV>, b: Seq<StmtV>, depth: nat, n: int)
    requires
        0 <= n <= a.len() + b.len(),
    ensures
        n <= a.len() ==> stmts_asm(a + b, depth, n) == stmts_asm(a, depth, n),
        n > a.len() ==> stmts_asm(a + b, depth, n) == stmts_asm(a, depth, a.len() as int) + stmts_asm(
            b,
            depth,
            n - a.len(),
        ),
    decreases n,
{
    if n > 0 {
        lemma_stmts_asm_append(a, b, depth, n - 1);
        assert((a + b)[n - 1] == if n <= a.len() { a[n - 1] } else { b[n - 1 - a.len()] });
        if n > a.len() {
            let m = n - a.len();
            if m > 1 {
                assert(stmts_asm(b, depth, m) == stmts_asm(b, depth, m - 1) + stmt_asm(b[m - 1], depth));
                assert(stmts_asm(a + b, depth, n) =~= stmts_asm(a, depth, a.len() as int) + stmts_asm(b, depth, m));
            } else {
                assert(stmts_asm(b, depth, 0) =~= seq![]);
                assert(stmts_asm(a + b, depth, n) =~= stmts_asm(a, depth, a.len() as int) + stmts_asm(b, depth, m));
            }
        }
    }
}

/// The assembly of a block is the assembly of its statements one after the
/// other at the block's depth: splitting a block in two splits its assembly
/// in two, and a nested block keeps the depth of the block around it.
pub proof fn lemma_block_asm_appends(a: Seq<StmtV>, b: Seq<StmtV>, depth: nat)
    ensures
        stmt_asm(StmtV::Block(a + b), depth) == stmt_asm(StmtV::Block(a), depth) + stmt_asm(StmtV::Block(b), depth),
        stmt_asm(StmtV::Block(seq![StmtV::Block(a)]), depth) == stmt_asm(StmtV::Block(a), depth),
{
    lemma_stmts_asm_append(a, b, depth, (a.len() + b.len()) as int);
    if b.len() == 0 {
        assert(a + b =~= a);
        assert(stmts_asm(b, depth, 0) =~= seq![]);
        assert(stmt_asm(StmtV::Block(a), depth) + stmt_asm(StmtV::Block(b), depth) =~= stmt_asm(StmtV::Block(a), depth));
    }
    let one = seq![StmtV::Block(a)];
    assert(stmts_asm(one, depth, 0) =~= seq![]);
    assert(stmts_asm(one, depth, 1) =~= stmt_asm(StmtV::Block(a), depth));
}

/// The bare-metal image of a statement: the kernel prologue, the statement's
/// assembly, and the halt loop.
pub fn generate_x86_64_bare_metal(ast: &Stmt) -> (r: String)
    ensures
        r@ == bare_metal_asm(ast@),
{
    let mut code = String::new();
    push_header(&mut code);
    compile_stmt(ast, &mut code, 1);
    push_footer(&mut code);
    assert(code@ =~= bare_metal_asm(ast@));
    code
}


/// Where a virtual register is written in the assembly: with no allocation,
/// its own name `%n`; with one, its physical register or stack slot (or `%n`
/// if the allocation does not cover it).
pub open spec fn loc_text(r: IrReg, m: Option<Seq<(IrReg, RegLocation)>>) -> Seq<char> {
    match m {
        None => reg_text(r),
        Some(map) => match location_of(map, r) {
            Some(l) => location_text(l),
            None => reg_text(r),
        },
    }
}

pub open spec fn opnd_text(o: Operand, m: Option<Seq<(IrReg, RegLocation)>>) -> Seq<char> {
    match o {
        Operand::Reg(r) => loc_text(r, m),
        Operand::Imm(v) => decimal(v as nat),
    }
}

/// The assembly of one IR operation. Volatile accesses are fenced and marked.
pub open spec fn op_asm(op: IrOpV, m: Option<Seq<(IrReg, RegLocation)>>) -> Seq<char> {
    match op {
        IrOpV::AssignImm { dest, value } => "    mov "@ + loc_text(dest, m) + ", "@ + decimal(value as nat) + "\n"@,
        IrOpV::Alloc { dest, size } => "    mov rdi, "@ + decimal(size as nat) + "\n"@ + "    call sys_alloc_os\n"@
            + "    mov "@ + loc_text(dest, m) + ", rax\n"@,
        IrOpV::Load { dest, ptr } => "    mov "@ + loc_text(dest, m) + ", ["@ + loc_text(ptr, m) + "]\n"@,
        IrOpV::Store { ptr, value } => "    mov ["@ + loc_text(ptr, m) + "], "@ + opnd_text(value, m) + "\n"@,
        IrOpV::VolatileLoad { dest, ptr } => "    ; [VOLATILE LOAD RING-0 MMIO]\n"@ + "    mfence\n"@ + "    mov "@
            + loc_text(dest, m) + ", ["@ + loc_text(ptr, m) + "]\n"@,
        IrOpV::VolatileStore { ptr, value } => "    ; [VOLATILE STORE RING-0 MMIO]\n"@ + "    mov ["@ + loc_text(ptr, m)
            + "], "@ + opnd_text(value, m) + "\n"@ + "    mfence\n"@,
        IrOpV::Free { ptr } => "    mov rdi, "@ + loc_text(ptr, m) + "\n"@ + "    call sys_free_os\n"@,
        IrOpV::Add { dest, lhs, rhs } => "    mov "@ + loc_text(dest, m) + ", "@ + opnd_text(lhs, m) + "\n"@ + "    add "@
            + loc_text(dest, m) + ", "@ + opnd_text(rhs, m) + "\n"@,
        IrOpV::Call { dest, target, .. } => match dest {
            Some(d) => "    call "@ + target + "\n"@ + "    mov "@ + loc_text(d, m) + ", rax\n"@,
            None => "    call "@ + target + "\n"@,
        },
    }
}

/// The assembly of a terminator.
pub open spec fn term_asm(t: TerminatorV, m: Option<Seq<(IrReg, RegLocation)>>) -> Seq<char> {
    match t {
        TerminatorV::Jump(l) => "    jmp "@ + l + "\n"@,
        TerminatorV::BranchIf { cond, then_bb, else_bb } => "    cmp "@ + loc_text(cond, m) + ", 0\n"@ + "    jne "@
            + then_bb + "\n"@ + "    jmp "@ + else_bb + "\n"@,
        TerminatorV::Return(Some(o)) => "    mov rax, "@ + opnd_text(o, m) + "\n"@ + "    ret\n"@,
        TerminatorV::Return(None) => "    ret\n"@,
        TerminatorV::Halt => "    jmp .halt\n"@,
    }
}

pub open spec fn ops_asm(ops: Seq<IrOpV>, m: Option<Seq<(IrReg, RegLocation)>>, n: int) -> Seq<char>
    decreases n,
{
    if n <= 0 || n > ops.len() {
        seq![]
    } else {
        ops_asm(ops, m, n - 1) + op_asm(ops[n - 1], m)
    }
}

/// A block: its label, its operations, its terminator.
pub open spec fn block_asm(b: BasicBlockV, m: Option<Seq<(IrReg, RegLocation)>>) -> Seq<char> {
    b.label + ":\n"@ + ops_asm(b.instructions, m, b.instructions.len() as int) + term_asm(b.terminator, m)
}

pub open spec fn blocks_asm(bs: Seq<BasicBlockV>, m: Option<Seq<(IrReg, RegLocation)>>, n: int) -> Seq<char>
    decreases n,
{
    if n <= 0 || n > bs.len() {
        seq![]
    } else {
        blocks_asm(bs, m, n - 1) + block_asm(bs[n - 1], m)
    }
}

/// The image of a function over virtual registers.
pub open spec fn ir_asm(f: FunctionIrV) -> Seq<char> {
    asm_header() + blocks_asm(f.blocks, None, f.blocks.len() as int) + asm_footer()
}

/// The line that reports the stack slots an allocation needs.
pub open spec fn spills_line(n: nat) -> Seq<char> {
    if n == 0 {
        "; 0 SPILLS - Pila intacta\n"@
    } else {
        "; "@ + decimal(n) + " SPILLS - Pila extendida\n"@
    }
}

/// The image of a function over an allocation of its registers.
pub open spec fn optimized_asm(f: FunctionIrV, a: (Seq<(IrReg, RegLocation)>, nat)) -> Seq<char> {
    asm_header() + spills_line(a.1) + blocks_asm(f.blocks, Some(a.0), f.blocks.len() as int) + asm_footer()
}

fn push_loc(code: &mut String, r: IrReg, assignment: Option<&RegAssignment>)
    ensures
        final(code)@ == old(code)@ + loc_text(
            r,
            match assignment {
                Some(a) => Some(a.mapping@),
                None => None,
            },
        ),
{
    let ghost c0 = code@;
    match assignment {
        Some(a) => match a.get(r) {
            Some(l) => {
                code.append(l.to_text().as_str());
            },
            None => {
                code.append(r.to_text().as_str());
            },
        },
        None => {
            code.append(r.to_text().as_str());
        },
    }
}

pub open spec fn map_of(assignment: Option<&RegAssignment>) -> Option<Seq<(IrReg, RegLocation)>> {
    match assignment {
        Some(a) => Some(a.mapping@),
        None => None,
    }
}

fn push_opnd(code: &mut String, o: &Operand, assignment: Option<&RegAssignment>)
    ensures
        final(code)@ == old(code)@ + opnd_text(*o, map_of(assignment)),
{
    match o {
        Operand::Reg(r) => push_loc(code, *r, assignment),
        Operand::Imm(v) => push_decimal(code, *v),
    }
}

fn push_op_asm(code: &mut String, op: &IrOp, assignment: Option<&RegAssignment>)
    ensures
        final(code)@ == old(code)@ + op_asm(op@, map_of(assignment)),
{
    let ghost c0 = code@;
    match op {
        IrOp::AssignImm { dest, value } => {
            code.append("    mov ");
            push_loc(code, *dest, assignment);
            code.append(", ");
            push_decimal(code, *value);
            code.append("\n");
        },
        IrOp::Alloc { dest, size } => {
            code.append("    mov rdi, ");
            push_decimal(code, *size);
            code.append("\n");
            code.append("    call sys_alloc_os\n");
            code.append("    mov ");
            push_loc(code, *dest, assignment);
            code.append(", rax\n");
        },
        IrOp::Load { dest, ptr } => {
            code.append("    mov ");
            push_loc(code, *dest, assignment);
            code.append(", [");
            push_loc(code, *ptr, assignment);
            code.append("]\n");
        },
        IrOp::Store { ptr, value } => {
            code.append("    mov [");
            push_loc(code, *ptr, assignment);
            code.append("], ");
            push_opnd(code, value, assignment);
            code.append("\n");
        },
        IrOp::VolatileLoad { dest, ptr } => {
            code.append("    ; [VOLATILE LOAD RING-0 MMIO]\n");
            code.append("    mfence\n");
            code.append("    mov ");
            push_loc(code, *dest, assignment);
            code.append(", [");
            push_loc(code, *ptr, assignment);
            code.append("]\n");
        },
        IrOp::VolatileStore { ptr, value } => {
            code.append("    ; [VOLATILE STORE RING-0 MMIO]\n");
            code.append("    mov [");
            push_loc(code, *ptr, assignment);
            code.append("], ");
            push_opnd(code, value, assignment);
            code.append("\n");
            code.append("    mfence\n");
        },
        IrOp::Free { ptr } => {
            code.append("    mov rdi, ");
            push_loc(code, *ptr, assignment);
            code.append("\n");
            code.append("    call sys_free_os\n");
        },
        IrOp::Add { dest, lhs, rhs } => {
            code.append("    mov ");
            push_loc(code, *dest, assignment);
            code.append(", ");
            push_opnd(code, lhs, assignment);
            code.append("\n");
            code.append("    add ");
            push_loc(code, *dest, assignment);
            code.append(", ");
            push_opnd(code, rhs, assignment);
            code.append("\n");
        },
        IrOp::Call { dest, target, .. } => {
            code.append("    call ");
            code.append(target.as_str());
            code.append("\n");
            if let Some(d) = dest {
                code.append("    mov ");
                push_loc(code, *d, assignment);
                code.append(", rax\n");
            }
        },
    }
    assert(code@ =~= c0 + op_asm(op@, map_of(assignment)));
}

fn push_term_asm(code: &mut String, t: &Terminator, assignment: Option<&RegAssignment>)
    ensures
        final(code)@ == old(code)@ + term_asm(t@, map_of(assignment)),
{
    let ghost c0 = code@;
    match t {
        Terminator::Jump(l) => {
            code.append("    jmp ");
            code.append(l.as_str());
            code.append("\n");
        },
        Terminator::BranchIf { cond, then_bb, else_bb } => {
            code.append("    cmp ");
            push_loc(code, *cond, assignment);
            code.append(", 0\n");
            code.append("    jne ");
            code.append(then_bb.as_str());
            code.append("\n");
            code.append("    jmp ");
            code.append(else_bb.as_str());
            code.append("\n");
        },
        Terminator::Return(Some(o)) => {
            code.append("    mov rax, ");
            push_opnd(code, o, assignment);
            code.append("\n");
            code.append("    ret\n");
        },
        Terminator::Return(None) => {
            code.append("    ret\n");
        },
        Terminator::Halt => {
            code.append("    jmp .halt\n");
        },
    }
    assert(code@ =~= c0 + term_asm(t@, map_of(assignment)));
}

fn push_blocks_asm(code: &mut String, ir: &FunctionIr, assignment: Option<&RegAssignment>)
    ensures
        final(code)@ == old(code)@ + blocks_asm(ir@.blocks, map_of(assignment), ir@.blocks.len() as int),
{
    let ghost c0 = code@;
    let ghost bs = ir@.blocks;
    let ghost m = map_of(assignment);
    let mut i: usize = 0;
    while i < ir.blocks.len()
        invariant
            i <= ir.blocks@.len(),
            bs == ir@.blocks,
            m == map_of(assignment),
            code@ == c0 + blocks_asm(bs, m, i as int),
        decreases ir.blocks@.len() - i,
    {
        let block = &ir.blocks[i];
        let ghost b = bs[i as int];
        let ghost c1 = code@;
        code.append(block.label.as_str());
        code.append(":\n");
        let ghost c2 = code@;
        let mut k: usize = 0;
        while k < block.instructions.len()
            invariant
                k <= block.instructions@.len(),
                b == block@,
                m == map_of(assignment),
                code@ == c2 + ops_asm(b.instructions, m, k as int),
            decreases block.instructions@.len() - k,
        {
            push_op_asm(code, &block.instructions[k], assignment);
            assert(code@ =~= c2 + ops_asm(b.instructions, m, k + 1));
            k += 1;
        }
        push_term_asm(code, &block.terminator, assignment);
        assert(code@ =~= c1 + block_asm(b, m));
        assert(code@ =~= c0 + blocks_asm(bs, m, i + 1));
        i += 1;
    }
}

/// The image of a function over virtual registers: the kernel prologue, each
/// block's assembly, and the halt loop. Volatile stores are marked and fenced.
pub fn generate_x86_64_from_ir(ir: &FunctionIr) -> (r: String)
    ensures
        r@ == ir_asm(ir@),
{
    let mut code = String::new();
    push_header(&mut code);
    push_blocks_asm(&mut code, ir, None);
    push_footer(&mut code);
    assert(code@ =~= ir_asm(ir@));
    code
}

/// The image of a function over an allocation of its registers: the prologue,
/// a line with the number of stack slots, each block with the registers in
/// their allocated places, and the halt loop.
pub fn generate_x86_64_optimized(ir: &FunctionIr, assignment: &RegAssignment) -> (r: String)
    ensures
        r@ == optimized_asm(ir@, assignment@),
{
    let mut code = String::new();
    push_header(&mut code);
    if assignment.num_spills == 0 {
        code.append("; 0 SPILLS - Pila intacta\n");
    } else {
        code.append("; ");
        push_decimal(&mut code, assignment.num_spills as u64);
        code.append(" SPILLS - Pila extendida\n");
    }
    push_blocks_asm(&mut code, ir, Some(assignment));
    push_footer(&mut code);
    assert(code@ =~= optimized_asm(ir@, assignment@));
    code
}

} // verus!
