use helix::ir::Lowerer;
use helix::lexer::Lexer;
use helix::parser::Parser;
use helix::runtime::{RuntimeError, SsaInterpreter};
use helix::ssa::{OptimizationStats, Operand, Optimizer, SsaInstruction, SsaLowerer, SsaProgram};
use helix::types::TypeChecker;

fn compile(source: &str) -> SsaProgram {
    let mut lexer = Lexer::new(source);

    let tokens = lexer.tokenize().unwrap();

    let mut parser = Parser::new(tokens);

    let ast = parser.parse_program().unwrap();

    let mut checker = TypeChecker::new();

    let typed = checker.check(&ast).unwrap();

    let ir = Lowerer::lower(&typed);

    SsaLowerer::new().lower(&ir)
}

fn reduction_percent(stats: &OptimizationStats) -> f64 {
    let (removed, before) = stats.reduction();

    if before == 0 {
        return 0.0;
    }

    100.0 * removed as f64 / before as f64
}

#[test]
fn lowers_expression_tree_into_ssa() {
    let ssa = compile("let x = 10 + 20; return x * 2;");

    assert_eq!(ssa.instruction_count(), 3);

    assert!(matches!(
        ssa.instructions()[0],
        SsaInstruction::Binary { .. }
    ));

    assert!(matches!(
        ssa.instructions()[1],
        SsaInstruction::Binary { .. }
    ));

    assert!(matches!(
        ssa.instructions()[2],
        SsaInstruction::Return { .. }
    ));
}

#[test]
fn constant_folding_reduces_program() {
    let ssa = compile("let x = 10 + 20; return x * 2;");

    let (optimized, stats) = Optimizer::optimize(&ssa);

    assert_eq!(stats.before, 3);

    assert_eq!(stats.after, 1);

    assert_eq!(stats.constants_folded, 2);

    assert!(reduction_percent(&stats) > 60.0);

    assert_eq!(
        optimized.instructions(),
        &[SsaInstruction::Return {
            value: Operand::Constant(60),
        }]
    );
}

#[test]
fn dead_computation_is_eliminated() {
    let ssa = compile("let unused = 10 + 20; return 7;");

    let (optimized, stats) = Optimizer::optimize(&ssa);

    assert_eq!(optimized.instruction_count(), 1);

    assert!(stats.instructions_eliminated >= 1);

    assert_eq!(
        optimized.instructions(),
        &[SsaInstruction::Return {
            value: Operand::Constant(7),
        }]
    );
}

#[test]
fn optimized_ssa_preserves_result() {
    let ssa = compile("let x = 10 + 20; let y = x * 3; return y - 5;");

    let (optimized, _) = Optimizer::optimize(&ssa);

    let mut unoptimized_vm = SsaInterpreter::new();

    let mut optimized_vm = SsaInterpreter::new();

    let before = unoptimized_vm.execute(&ssa).unwrap();

    let after = optimized_vm.execute(&optimized).unwrap();

    assert_eq!(before, 85);

    assert_eq!(after, 85);
}

#[test]
fn division_by_zero_is_not_folded_away() {
    let ssa = compile("return 10 / 0;");

    let (optimized, _) = Optimizer::optimize(&ssa);

    let mut interpreter = SsaInterpreter::new();

    assert_eq!(
        interpreter.execute(&optimized),
        Err(RuntimeError::DivisionByZero)
    );
}

#[test]
fn optimizer_reports_instruction_reduction() {
    let ssa = compile("let a = 1 + 2; let b = a * 4; let dead = 100 + 200; return b + 5;");

    let (optimized, stats) = Optimizer::optimize(&ssa);

    assert!(optimized.instruction_count() < ssa.instruction_count());

    assert!(stats.constants_folded >= 3);

    assert!(reduction_percent(&stats) > 50.0);
}

#[test]
fn overflowing_operation_is_kept() {
    let ssa = compile("return 9223372036854775807 * 2;");

    let (optimized, stats) = Optimizer::optimize(&ssa);

    assert_eq!(stats.constants_folded, 0);

    let mut interpreter = SsaInterpreter::new();

    assert_eq!(
        interpreter.execute(&optimized),
        Err(RuntimeError::IntegerOverflow)
    );
}

#[test]
fn reduction_reports_removed_and_total() {
    let ssa = compile("let x = 10 + 20; return x * 2;");

    let (_, stats) = Optimizer::optimize(&ssa);

    assert_eq!(stats.reduction(), (2, 3));
}

#[test]
fn unused_failing_division_is_eliminated() {
    let ssa = compile("let unused = 10 / 0; return 5;");

    let (optimized, _) = Optimizer::optimize(&ssa);

    assert_eq!(SsaInterpreter::new().execute(&ssa), Err(RuntimeError::DivisionByZero));
    assert_eq!(SsaInterpreter::new().execute(&optimized), Ok(5));
}

#[test]
fn checked_program_can_be_lowered() {
    let mut lexer = Lexer::new("let a = 1 + 2; let b = a * 4; return b - a;");
    let tokens = lexer.tokenize().unwrap();
    let mut parser = Parser::new(tokens);
    let ast = parser.parse_program().unwrap();
    let mut checker = TypeChecker::new();
    let typed = checker.check(&ast).unwrap();
    let ir = Lowerer::lower(&typed);

    let lowerer = SsaLowerer::new();

    assert!(lowerer.can_lower(&ir));

    let ssa = lowerer.lower(&ir);

    assert_eq!(SsaInterpreter::new().execute(&ssa), Ok(9));
}

fn run_both(source: &str) -> (Result<i64, RuntimeError>, Result<i64, RuntimeError>) {
    let mut lexer = Lexer::new(source);
    let tokens = lexer.tokenize().unwrap();
    let mut parser = Parser::new(tokens);
    let ast = parser.parse_program().unwrap();
    let mut checker = TypeChecker::new();
    let typed = checker.check(&ast).unwrap();
    let ir = Lowerer::lower(&typed);

    let linear = helix::runtime::Interpreter::new().execute(&ir);
    let ssa = SsaLowerer::new().lower(&ir);
    let lowered = SsaInterpreter::new().execute(&ssa);

    (linear, lowered)
}

#[test]
fn lowering_keeps_program_results() {
    assert_eq!(run_both("let a = 7; let b = a * 6; return b - a;"), (Ok(35), Ok(35)));
    assert_eq!(
        run_both("let a = 7; let b = a / 0; return b;"),
        (Err(RuntimeError::DivisionByZero), Err(RuntimeError::DivisionByZero)),
    );
    assert_eq!(
        run_both("let a = 9223372036854775807; return a + 1;"),
        (Err(RuntimeError::IntegerOverflow), Err(RuntimeError::IntegerOverflow)),
    );
}

#[test]
fn default_lowerer_matches_new() {
    let mut lexer = Lexer::new("let a = 2 * 3; return a + 1;");
    let tokens = lexer.tokenize().unwrap();
    let mut parser = Parser::new(tokens);
    let ast = parser.parse_program().unwrap();
    let typed = TypeChecker::new().check(&ast).unwrap();
    let ir = Lowerer::lower(&typed);

    assert_eq!(SsaLowerer::default().lower(&ir), SsaLowerer::new().lower(&ir));
}

#[test]
fn ssa_interpreter_reports_unknown_values_and_missing_return() {
    let unknown = SsaProgram::new(vec![SsaInstruction::Return {
        value: Operand::Value(7),
    }]);
    assert_eq!(
        SsaInterpreter::new().execute(&unknown),
        Err(RuntimeError::UndefinedValue(7))
    );

    let endless = SsaProgram::new(vec![SsaInstruction::Copy {
        result: 0,
        source: Operand::Constant(3),
    }]);
    let mut interpreter = SsaInterpreter::new();
    assert_eq!(interpreter.execute(&endless), Err(RuntimeError::MissingReturn));

    let reads_earlier_run = SsaProgram::new(vec![SsaInstruction::Return {
        value: Operand::Value(0),
    }]);
    assert_eq!(interpreter.execute(&reads_earlier_run), Ok(3));
}

fn reads(instruction: &SsaInstruction, id: u32) -> bool {
    match instruction {
        SsaInstruction::Binary { left, right, .. } => {
            *left == Operand::Value(id) || *right == Operand::Value(id)
        }
        SsaInstruction::Copy { source, .. } => *source == Operand::Value(id),
        SsaInstruction::Return { value } => *value == Operand::Value(id),
    }
}

#[test]
fn lowering_numbers_binaries_in_order_and_reads_earlier_values() {
    let ssa = compile("let a = 1 + 2; let b = a * 3; let c = 4; return b - a + c;");
    let instructions = ssa.instructions();

    let mut next = 0;
    let mut returns = 0;
    for (i, instruction) in instructions.iter().enumerate() {
        match instruction {
            SsaInstruction::Binary { result, .. } => {
                assert_eq!(*result, next);
                next += 1;
            }
            SsaInstruction::Copy { .. } => panic!("lowering emitted a copy"),
            SsaInstruction::Return { .. } => returns += 1,
        }
        for id in 0..10 {
            if reads(instruction, id) {
                assert!(instructions[..i]
                    .iter()
                    .any(|earlier| matches!(earlier, SsaInstruction::Binary { result, .. } if *result == id)));
            }
        }
    }
    assert_eq!(next, 4);
    assert_eq!(returns, 1);
}

#[test]
fn optimized_ssa_keeps_returns_and_reads_every_result() {
    let ssa = compile("let a = 7 / 0; let b = a + 1; let unused = b * 2; return b;");
    let (optimized, stats) = Optimizer::optimize(&ssa);
    let instructions = optimized.instructions();

    assert_eq!(stats.before, ssa.instruction_count());
    assert_eq!(stats.after, optimized.instruction_count());
    assert_eq!(
        instructions.iter().filter(|i| matches!(i, SsaInstruction::Return { .. })).count(),
        1
    );
    for (i, instruction) in instructions.iter().enumerate() {
        if let Some(result) = instruction.result() {
            assert!(instructions[i + 1..].iter().any(|later| reads(later, result)));
        }
    }
}

#[test]
fn constant_operations_left_are_exactly_the_failing_ones() {
    let ssa = compile("let a = 9223372036854775807 + 1; let b = 7 / 0; let c = 2 * 3; return a + b + c;");

    let (optimized, _) = Optimizer::optimize(&ssa);

    let mut left = Vec::new();
    for instruction in optimized.instructions() {
        if let SsaInstruction::Binary {
            left: Operand::Constant(a),
            right: Operand::Constant(b),
            ..
        } = instruction
        {
            left.push((*a, *b));
        }
    }

    assert_eq!(left, vec![(9223372036854775807, 1), (7, 0)]);
}
