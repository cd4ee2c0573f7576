use sovereign_c::ast::{Expr, Stmt, Type};
use sovereign_c::backend::{compile_stmt, generate_x86_64_bare_metal, generate_x86_64_from_ir, generate_x86_64_optimized};
use sovereign_c::borrowck::{check_statement, BorrowContext};
use sovereign_c::ir::{BasicBlock, FunctionIr, IrOp, IrReg, Operand, Terminator};
use sovereign_c::jit::SovereignJitEngine;
use sovereign_c::lexer::tokenize;
use sovereign_c::liveness::{compute_live_intervals, LiveInterval};
use sovereign_c::lowering::IrLoweringVisitor;
use sovereign_c::parser::Parser;
use sovereign_c::regalloc::{LinearScanAllocator, PhysReg, RegLocation};
use sovereign_c::text::{decimal_text, push_decimal, push_hex_prefixed};

const HEADER: &str = "; ==========================================\n\
; SOVEREIGN COMPILER - C5-REAL ARCHITECTURE\n\
; TARGET: x86_64 Bare-Metal (Ring-0)\n\
; ==========================================\n\n\
.global _start\n\
.section .text\n\n\
_start:\n    ; --- Prólogo del Kernel ---\n    mov rbp, rsp\n\n";

const FOOTER: &str = "\n    ; --- Kernel Panic / Halt Loop ---\n.halt:\n    cli\n    hlt\n    jmp .halt\n";

fn checked(code: &str) -> Vec<Stmt> {
    let mut parser = Parser::new(tokenize(code));
    let ast = parser.parse_block().expect("parse failed");
    let mut ctx = BorrowContext::new();
    check_statement(&ast, &mut ctx).expect("borrowck failed")
}

fn lowered(code: &str, name: &str) -> FunctionIr {
    IrLoweringVisitor::new().lower_ast(&checked(code), name)
}

#[test]
fn ir_text_of_a_scalar_binding() {
    let ir = lowered("{ let x: u32 = 7; }", "main");
    assert_eq!(ir.to_text(), "fn @main() {\nbb_entry:\n  %0 = imm 7\n  halt ; [Ring-0 Panic / Halt]\n}\n");
}

#[test]
fn ir_text_of_an_unsafe_block() {
    let ir = lowered("{ unsafe { let p: raw u32 = 16; *p = 3; } }", "k");
    assert_eq!(ir.blocks.len(), 3);
    assert_eq!(
        ir.to_text(),
        "fn @k() {\nbb_entry:\n  jmp bb_unsafe_0\n\nbb_unsafe_0:\n  %0 = imm 16\n  volatile_store [%0], 3 ; [MMIO BARRIER]\n  jmp bb_post_unsafe_1\n\nbb_post_unsafe_1:\n  halt ; [Ring-0 Panic / Halt]\n}\n"
    );
}

#[test]
fn lowering_scalar_copy_and_sum() {
    let stmts = vec![Stmt::Block(vec![
        Stmt::Let("a".to_string(), Type::U32, Expr::LiteralInt(2)),
        Stmt::Let(
            "b".to_string(),
            Type::U32,
            Expr::Add(Box::new(Expr::Variable("a".to_string())), Box::new(Expr::LiteralInt(5))),
        ),
        Stmt::Let("c".to_string(), Type::U32, Expr::Variable("b".to_string())),
    ])];
    let ir = IrLoweringVisitor::new().lower_ast(&stmts, "f");
    assert_eq!(
        ir.blocks[0].instructions,
        vec![
            IrOp::AssignImm { dest: IrReg(0), value: 2 },
            IrOp::Add { dest: IrReg(1), lhs: Operand::Reg(IrReg(0)), rhs: Operand::Imm(5) },
            IrOp::Add { dest: IrReg(2), lhs: Operand::Reg(IrReg(1)), rhs: Operand::Imm(0) },
            IrOp::Add { dest: IrReg(3), lhs: Operand::Reg(IrReg(2)), rhs: Operand::Imm(0) },
        ]
    );
}

#[test]
fn lowering_return_and_reassignment() {
    let stmts = vec![
        Stmt::Let("a".to_string(), Type::U8, Expr::LiteralInt(1)),
        Stmt::Assign(Expr::Variable("a".to_string()), Expr::LiteralInt(9)),
        Stmt::Return(Expr::Variable("a".to_string())),
    ];
    let ir = IrLoweringVisitor::new().lower_ast(&stmts, "r");
    assert_eq!(ir.blocks.len(), 2);
    assert_eq!(
        ir.blocks[0],
        BasicBlock {
            label: "bb_entry".to_string(),
            instructions: vec![
                IrOp::AssignImm { dest: IrReg(0), value: 1 },
                IrOp::AssignImm { dest: IrReg(1), value: 9 },
            ],
            terminator: Terminator::Return(Some(Operand::Reg(IrReg(1)))),
        }
    );
    assert_eq!(ir.blocks[1].label, "bb_unreachable_0");
    assert_eq!(ir.blocks[1].terminator, Terminator::Halt);
}

#[test]
fn lowering_unbound_name_gives_none() {
    let stmts = vec![Stmt::Let("y".to_string(), Type::U32, Expr::Variable("nope".to_string()))];
    assert!(IrLoweringVisitor::new().try_lower_ast(&stmts, "bad").is_none());
    let ok = vec![Stmt::Let("y".to_string(), Type::U32, Expr::LiteralInt(4))];
    assert!(IrLoweringVisitor::new().try_lower_ast(&ok, "good").is_some());
}

#[test]
fn lowering_store_outside_unsafe_through_owned_is_plain() {
    let stmts = vec![
        Stmt::Let("m".to_string(), Type::Owned(Box::new(Type::U8)), Expr::LiteralInt(8)),
        Stmt::Assign(Expr::Deref(Box::new(Expr::Variable("m".to_string()))), Expr::LiteralInt(1)),
        Stmt::SyntheticDrop("m".to_string()),
    ];
    let ir = IrLoweringVisitor::new().lower_ast(&stmts, "s");
    assert_eq!(
        ir.blocks[0].instructions,
        vec![
            IrOp::Alloc { dest: IrReg(0), size: 8 },
            IrOp::Store { ptr: IrReg(0), value: Operand::Imm(1) },
            IrOp::Free { ptr: IrReg(0) },
        ]
    );
}

#[test]
fn liveness_of_an_unsafe_block() {
    let ir = lowered("{ unsafe { let p: raw u32 = 16; *p = 3; } }", "k");
    let intervals = compute_live_intervals(&ir);
    assert_eq!(intervals, vec![LiveInterval { reg: IrReg(0), start: 1, end: 2 }]);
}

#[test]
fn liveness_orders_by_start_and_covers_uses() {
    let ir = lowered("{ let a: u32 = 1; let b: u32 = a; let c: u32 = 3; }", "l");
    let intervals = compute_live_intervals(&ir);
    assert_eq!(
        intervals,
        vec![
            LiveInterval { reg: IrReg(0), start: 0, end: 1 },
            LiveInterval { reg: IrReg(1), start: 1, end: 1 },
            LiveInterval { reg: IrReg(2), start: 2, end: 2 },
        ]
    );
    for w in intervals.windows(2) {
        assert!(w[0].start < w[1].start);
    }
}

#[test]
fn regalloc_spills_the_longest_active_interval() {
    let intervals = vec![
        LiveInterval { reg: IrReg(0), start: 0, end: 10 },
        LiveInterval { reg: IrReg(1), start: 1, end: 8 },
        LiveInterval { reg: IrReg(2), start: 2, end: 6 },
    ];
    let a = LinearScanAllocator::new(&[PhysReg::Rax, PhysReg::Rcx]).allocate(intervals);
    assert_eq!(a.num_spills, 1);
    assert_eq!(a.get(IrReg(0)), Some(RegLocation::Spill(0)));
    assert_eq!(a.get(IrReg(1)), Some(RegLocation::Reg(PhysReg::Rcx)));
    assert_eq!(a.get(IrReg(2)), Some(RegLocation::Reg(PhysReg::Rax)));
    assert_eq!(a.get(IrReg(3)), None);
}

#[test]
fn regalloc_spills_the_current_interval_when_it_ends_last() {
    let intervals = vec![
        LiveInterval { reg: IrReg(0), start: 0, end: 2 },
        LiveInterval { reg: IrReg(1), start: 1, end: 5 },
    ];
    let a = LinearScanAllocator::new(&[PhysReg::Rax]).allocate(intervals);
    assert_eq!(a.num_spills, 1);
    assert_eq!(a.get(IrReg(0)), Some(RegLocation::Reg(PhysReg::Rax)));
    assert_eq!(a.get(IrReg(1)), Some(RegLocation::Spill(0)));
}

#[test]
fn regalloc_spill_slots_are_distinct() {
    let intervals = vec![
        LiveInterval { reg: IrReg(0), start: 0, end: 10 },
        LiveInterval { reg: IrReg(1), start: 1, end: 9 },
        LiveInterval { reg: IrReg(2), start: 2, end: 8 },
    ];
    let a = LinearScanAllocator::new(&[PhysReg::Rax]).allocate(intervals);
    assert_eq!(a.num_spills, 2);
    assert_eq!(a.get(IrReg(0)), Some(RegLocation::Spill(0)));
    assert_eq!(a.get(IrReg(1)), Some(RegLocation::Spill(1)));
    assert_eq!(a.get(IrReg(2)), Some(RegLocation::Reg(PhysReg::Rax)));
}

#[test]
fn regalloc_sorts_its_input_by_start() {
    let intervals = vec![
        LiveInterval { reg: IrReg(5), start: 4, end: 6 },
        LiveInterval { reg: IrReg(7), start: 0, end: 2 },
    ];
    let a = LinearScanAllocator::new(&[PhysReg::R8, PhysReg::R9]).allocate(intervals);
    assert_eq!(a.get(IrReg(7)), Some(RegLocation::Reg(PhysReg::R8)));
    assert_eq!(a.get(IrReg(5)), Some(RegLocation::Reg(PhysReg::R8)));
    assert_eq!(a.locations(), vec![RegLocation::Reg(PhysReg::R8), RegLocation::Reg(PhysReg::R8)]);
    assert_eq!(a.num_spills, 0);
}

#[test]
fn regalloc_default_pool_order() {
    let intervals: Vec<LiveInterval> =
        (0..10).map(|i| LiveInterval { reg: IrReg(i), start: i, end: 20 }).collect();
    let a = LinearScanAllocator::default_x86_64().allocate(intervals);
    let expected = [
        PhysReg::Rax,
        PhysReg::Rcx,
        PhysReg::Rdx,
        PhysReg::Rsi,
        PhysReg::Rdi,
        PhysReg::R8,
        PhysReg::R9,
        PhysReg::R10,
        PhysReg::R11,
    ];
    for (i, r) in expected.iter().enumerate() {
        assert_eq!(a.get(IrReg(i)), Some(RegLocation::Reg(*r)));
    }
    assert_eq!(a.get(IrReg(9)), Some(RegLocation::Spill(0)));
    assert_eq!(a.num_spills, 1);
}

#[test]
fn location_texts() {
    assert_eq!(PhysReg::R10.to_text(), "r10");
    assert_eq!(PhysReg::Rdi.name(), "rdi");
    assert_eq!(RegLocation::Spill(3).to_text(), "[stack_spill #3]");
    assert_eq!(RegLocation::Reg(PhysReg::Rsi).to_text(), "rsi");
}

#[test]
fn ir_texts_of_operations_and_terminators() {
    let call = IrOp::Call { dest: Some(IrReg(3)), target: "f".to_string(), args: vec![Operand::Reg(IrReg(1)), Operand::Imm(2)] };
    assert_eq!(call.to_text(), "  %3 = call f(%1, 2)");
    let call0 = IrOp::Call { dest: None, target: "g".to_string(), args: vec![] };
    assert_eq!(call0.to_text(), "  call g()");
    assert_eq!(IrOp::Load { dest: IrReg(1), ptr: IrReg(0) }.to_text(), "  %1 = load [%0]");
    assert_eq!(
        IrOp::VolatileLoad { dest: IrReg(1), ptr: IrReg(0) }.to_text(),
        "  %1 = volatile_load [%0] ; [MMIO BARRIER]"
    );
    assert_eq!(IrOp::Free { ptr: IrReg(4) }.to_text(), "  free %4 ; [@__sovereign_dealloc]");
    assert_eq!(IrOp::Alloc { dest: IrReg(0), size: 64 }.to_text(), "  %0 = alloc 64 bytes");
    assert_eq!(IrOp::Store { ptr: IrReg(0), value: Operand::Imm(7) }.to_text(), "  store [%0], 7");
    let br = Terminator::BranchIf { cond: IrReg(0), then_bb: "a".to_string(), else_bb: "b".to_string() };
    assert_eq!(br.to_text(), "  branch_if %0, then: a, else: b");
    assert_eq!(Terminator::Return(None).to_text(), "  ret");
    assert_eq!(Terminator::Return(Some(Operand::Imm(5))).to_text(), "  ret 5");
    assert_eq!(Terminator::Jump("x".to_string()).to_text(), "  jmp x");
    assert_eq!(IrReg(12).to_text(), "%12");
    assert_eq!(Operand::Imm(0).to_text(), "0");
}

#[test]
fn bare_metal_assembly_of_each_binding_kind() {
    let out = checked("{ let n: u32 = 5; }");
    assert_eq!(
        generate_x86_64_bare_metal(&out[0]),
        format!("{}    mov rdx, 5 ; [ESCALAR] n = valor literal\n{}", HEADER, FOOTER)
    );
    let out = checked("{ unsafe { let p: raw u32 = 255; } }");
    assert_eq!(
        generate_x86_64_bare_metal(&out[0]),
        format!(
            "{}\n    > --- INICIO ESCOTILLA UNSAFE ---\n    mov rax, 0xff ; [MMIO] p = Dirección Física\n    > --- FIN ESCOTILLA UNSAFE ---\n{}",
            HEADER, FOOTER
        )
    );
    let out = checked("{ let m: owned u8 = 32; }");
    assert_eq!(
        generate_x86_64_bare_metal(&out[0]),
        format!(
            "{}    mov rdi, 32 ; Preparar tamaño para alloc\n    call sys_alloc_os ; [ALLOC] m asume propiedad\n    mov rcx, rax ; Guardar puntero propietario\n\n    // [DROP DETERMINISTA INYECTADO: m]\n    mov rdi, rcx ; Recuperar puntero propietario\n    call sys_free_os ; [FREE] Liberación inmediata sin GC\n{}",
            HEADER, FOOTER
        )
    );
}

#[test]
fn assembly_from_ir_with_and_without_allocation() {
    let ir = lowered("{ let x: u32 = 7; }", "main");
    assert_eq!(
        generate_x86_64_from_ir(&ir),
        format!("{}bb_entry:\n    mov %0, 7\n    jmp .halt\n{}", HEADER, FOOTER)
    );
    let a = LinearScanAllocator::default_x86_64().allocate(compute_live_intervals(&ir));
    assert_eq!(
        generate_x86_64_optimized(&ir, &a),
        format!("{}; 0 SPILLS - Pila intacta\nbb_entry:\n    mov rax, 7\n    jmp .halt\n{}", HEADER, FOOTER)
    );
}

#[test]
fn optimized_assembly_reports_spills() {
    let ir = lowered("{ let a: u32 = 1; let b: u32 = a; }", "s");
    let intervals = compute_live_intervals(&ir);
    let a = LinearScanAllocator::new(&[PhysReg::Rax]).allocate(intervals);
    assert_eq!(a.num_spills, 1);
    let code = generate_x86_64_optimized(&ir, &a);
    assert!(code.contains("; 1 SPILLS - Pila extendida\n"));
}

#[test]
fn jit_payload() {
    let empty = SovereignJitEngine::new(vec![]);
    assert_eq!(empty.payload().unwrap_err(), "No opcodes to execute");
    let engine = SovereignJitEngine::new(vec![0x48, 0xC3]);
    assert_eq!(engine.payload().unwrap(), &[0x48u8, 0xC3][..]);
}

#[test]
fn decimal_and_hex_texts() {
    assert_eq!(decimal_text(0), "0");
    assert_eq!(decimal_text(1234567890), "1234567890");
    assert_eq!(decimal_text(u64::MAX), "18446744073709551615");
    let mut s = "n=".to_string();
    push_decimal(&mut s, 42);
    push_hex_prefixed(&mut s, 255);
    push_hex_prefixed(&mut s, 0);
    assert_eq!(s, "n=420xff0x0");
}

#[test]
fn regalloc_as_many_registers_as_intervals_never_spills() {
    let intervals: Vec<LiveInterval> =
        (0..3).map(|i| LiveInterval { reg: IrReg(i), start: i, end: 9 }).collect();
    let a = LinearScanAllocator::new(&[PhysReg::R9, PhysReg::R10, PhysReg::R11]).allocate(intervals);
    assert_eq!(a.num_spills, 0);
    assert_eq!(
        a.locations(),
        vec![RegLocation::Reg(PhysReg::R9), RegLocation::Reg(PhysReg::R10), RegLocation::Reg(PhysReg::R11)]
    );
}

#[test]
fn lowering_block_scope_ends_with_the_block() {
    let out_of_scope = vec![
        Stmt::Block(vec![Stmt::Let("x".to_string(), Type::U32, Expr::LiteralInt(1))]),
        Stmt::Let("y".to_string(), Type::U32, Expr::Variable("x".to_string())),
    ];
    assert!(IrLoweringVisitor::new().try_lower_ast(&out_of_scope, "f").is_none());
    let rebound_inside = vec![
        Stmt::Let("a".to_string(), Type::U32, Expr::LiteralInt(1)),
        Stmt::Block(vec![Stmt::Assign(Expr::Variable("a".to_string()), Expr::LiteralInt(2))]),
        Stmt::Return(Expr::Variable("a".to_string())),
    ];
    let ir = IrLoweringVisitor::new().try_lower_ast(&rebound_inside, "g").unwrap();
    assert_eq!(ir.blocks[0].terminator, Terminator::Return(Some(Operand::Reg(IrReg(0)))));
}

#[test]
fn compile_stmt_appends_at_its_depth() {
    let mut code = "x".to_string();
    let block = Stmt::Block(vec![
        Stmt::Let("n".to_string(), Type::U32, Expr::LiteralInt(5)),
        Stmt::Block(vec![Stmt::Return(Expr::LiteralInt(1))]),
        Stmt::Assign(Expr::Variable("n".to_string()), Expr::LiteralInt(2)),
    ]);
    compile_stmt(&block, &mut code, 2);
    assert_eq!(code, "x        mov rdx, 5 ; [ESCALAR] n = valor literal\n");
}
