use sovereign_c::backend::generate_x86_64_optimized;
use sovereign_c::borrowck::{check_statement, BorrowContext};
use sovereign_c::ir::IrReg;
use sovereign_c::lexer::tokenize;
use sovereign_c::liveness::{compute_live_intervals, LiveInterval};
use sovereign_c::lowering::IrLoweringVisitor;
use sovereign_c::parser::Parser;
use sovereign_c::regalloc::{LinearScanAllocator, PhysReg, RegLocation};

#[test]
fn test_liveness_intervals_computation() {
    let code = r#"
    {
        let a: u32 = 10;
        let b: u32 = 20;
    }
    "#;
    let tokens = tokenize(code);
    let mut parser = Parser::new(tokens);
    let ast = parser.parse_block().expect("Parse failed");

    let mut ctx = BorrowContext::new();
    let transformed = check_statement(&ast, &mut ctx).expect("Borrowck failed");

    let visitor = IrLoweringVisitor::new();
    let ir = visitor.lower_ast(&transformed, "test_liveness");

    let intervals = compute_live_intervals(&ir);
    assert_eq!(intervals.len(), 2);
    assert!(intervals[0].start <= intervals[0].end);
    assert!(intervals[1].start <= intervals[1].end);
}

#[test]
fn test_physical_register_reuse_non_overlapping() {
    let intervals = vec![
        LiveInterval { reg: IrReg(0), start: 0, end: 2 },
        LiveInterval { reg: IrReg(1), start: 4, end: 6 },
    ];

    let allocator = LinearScanAllocator::new(&[PhysReg::Rax]);
    let assignment = allocator.allocate(intervals);

    assert_eq!(assignment.num_spills, 0, "No debe haber spills si los intervalos no se solapan");
    assert_eq!(assignment.get(IrReg(0)), Some(RegLocation::Reg(PhysReg::Rax)));
    assert_eq!(assignment.get(IrReg(1)), Some(RegLocation::Reg(PhysReg::Rax)));
}

#[test]
fn test_spill_under_high_pressure() {
    let intervals = vec![
        LiveInterval { reg: IrReg(0), start: 0, end: 10 },
        LiveInterval { reg: IrReg(1), start: 1, end: 8 },
        LiveInterval { reg: IrReg(2), start: 2, end: 6 },
    ];

    let allocator = LinearScanAllocator::new(&[PhysReg::Rax, PhysReg::Rcx]);
    let assignment = allocator.allocate(intervals);

    assert_eq!(assignment.num_spills, 1, "Debe ocurrir exactamente 1 spill");

    let mut phys_count = 0;
    let mut spill_count = 0;
    for loc in assignment.locations() {
        match loc {
            RegLocation::Reg(_) => phys_count += 1,
            RegLocation::Spill(_) => spill_count += 1,
        }
    }
    assert_eq!(phys_count, 2);
    assert_eq!(spill_count, 1);
}

#[test]
fn test_volatile_store_register_correctness() {
    let code = r#"
    {
        let buffer: owned u8 = 1024;
        let number: u32 = 42;
        
        unsafe {
            let mmio_port: raw u32 = 400000;
            *mmio_port = number;
        }
    }
    "#;
    let tokens = tokenize(code);
    let mut parser = Parser::new(tokens);
    let ast = parser.parse_block().expect("Parse failed");

    let mut ctx = BorrowContext::new();
    let transformed = check_statement(&ast, &mut ctx).expect("Borrowck failed");

    let visitor = IrLoweringVisitor::new();
    let ir = visitor.lower_ast(&transformed, "test_opt");

    let intervals = compute_live_intervals(&ir);
    let allocator = LinearScanAllocator::default_x86_64();
    let assignment = allocator.allocate(intervals);

    assert_eq!(
        assignment.num_spills, 0,
        "El código con 3 variables cabe completamente en los 9 registros físicos"
    );

    let listing = generate_x86_64_optimized(&ir, &assignment);
    assert!(listing.contains("0 SPILLS - Pila intacta"), "Debe reportar 0 spills");
    assert!(listing.contains("VOLATILE STORE RING-0 MMIO"), "Debe preservar la barrera MMIO");
    assert!(listing.contains("mfence"), "Debe emitir mfence");
    assert!(listing.contains("sys_free_os"), "Debe emitir el destructor SyntheticDrop");
}
