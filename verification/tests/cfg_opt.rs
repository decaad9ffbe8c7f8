use helix::cfg::{CfgBuilder, ControlFlowGraph, Instruction, Operand, Terminator};
use helix::cfg_opt::{CfgOptimizationStats, CfgOptimizer};
use helix::lexer::Lexer;
use helix::parser::Parser;
use helix::types::TypeChecker;

fn build(source: &str) -> ControlFlowGraph {
    let mut lexer = Lexer::new(source);
    let tokens = lexer.tokenize().unwrap();

    let mut parser = Parser::new(tokens);
    let program = parser.parse_program().unwrap();

    let mut checker = TypeChecker::new();
    let typed = checker.check(&program).unwrap();

    CfgBuilder::new().build(&typed)
}

fn block_reduction_percent(stats: &CfgOptimizationStats) -> f64 {
    let (removed, before) = stats.block_reduction();

    if before == 0 {
        return 0.0;
    }

    100.0 * removed as f64 / before as f64
}

#[test]
fn constant_condition_folds_branch() {
    let cfg = build("if 10 > 5 { return 1; } else { return 0; }");

    let (optimized, stats) = CfgOptimizer::optimize(&cfg);

    assert_eq!(stats.branches_folded, 1);
    assert_eq!(optimized.blocks().len(), 2);

    assert!(matches!(
        optimized.block(0).unwrap().terminator(),
        Some(Terminator::Jump(1))
    ));
}

#[test]
fn false_condition_removes_then_branch() {
    let cfg = build("if 10 < 5 { return 1; } else { return 0; }");

    let (optimized, stats) = CfgOptimizer::optimize(&cfg);

    assert_eq!(stats.branches_folded, 1);
    assert_eq!(optimized.blocks().len(), 2);

    assert!(matches!(
        optimized.block(0).unwrap().terminator(),
        Some(Terminator::Jump(2))
    ));
}

#[test]
fn nested_constant_branches_are_pruned() {
    let cfg = build(
        "
        if 10 > 5 {
            if 3 < 4 {
                return 1;
            } else {
                return 2;
            }
        } else {
            return 0;
        }
        ",
    );

    let before = cfg.blocks().len();

    let (optimized, stats) = CfgOptimizer::optimize(&cfg);

    assert!(optimized.blocks().len() < before);
    assert!(stats.branches_folded >= 2);
    assert!(block_reduction_percent(&stats) > 0.0);
}

#[test]
fn optimizer_reports_instruction_statistics() {
    let cfg = build(
        "
        let x = 10 + 20;
        if x > 5 {
            return x;
        } else {
            return 0;
        }
        ",
    );

    let (_, stats) = CfgOptimizer::optimize(&cfg);

    assert!(stats.instructions_after <= stats.instructions_before);

    assert!(stats.constants_propagated > 0);
}

#[test]
fn straight_line_program_folds_to_constant_return() {
    let cfg = build("let x = 10 + 20; return x * 2;");

    let (optimized, stats) = CfgOptimizer::optimize(&cfg);

    let entry = optimized.block(0).unwrap();

    assert_eq!(
        entry.terminator(),
        Some(&Terminator::Return(Operand::Constant(60)))
    );
    assert_eq!(entry.instructions().len(), 1);
    assert!(matches!(
        entry.instructions()[0],
        Instruction::Bind {
            value: Operand::Constant(30),
            ..
        }
    ));
    assert_eq!(stats.instructions_before, 3);
    assert_eq!(stats.instructions_after, 1);
    assert_eq!(stats.dead_instructions_removed, 2);
    assert_eq!(stats.constants_propagated, 3);
    assert_eq!(stats.instruction_reduction(), (2, 3));
}

#[test]
fn phi_is_eliminated_when_branch_is_known() {
    let cfg = build(
        "
        let x = 0;

        if 7 > 3 {
            x = 11;
        } else {
            x = 22;
        }

        return x;
        ",
    );

    let (optimized, stats) = CfgOptimizer::optimize(&cfg);

    assert_eq!(stats.phis_before, 1);
    assert_eq!(stats.phis_after, 0);
    assert_eq!(stats.phis_eliminated, 1);
    assert_eq!(stats.blocks_before, 4);
    assert_eq!(stats.blocks_after, 3);

    let merge = optimized.block(3).unwrap();

    assert_eq!(
        merge.terminator(),
        Some(&Terminator::Return(Operand::Constant(11)))
    );
}

#[test]
fn failing_division_is_kept() {
    let cfg = build("return 10 / 0;");

    let (optimized, stats) = CfgOptimizer::optimize(&cfg);

    assert_eq!(stats.instructions_after, 1);
    assert_eq!(stats.dead_instructions_removed, 0);
    assert_eq!(
        optimized.block(0).unwrap().terminator(),
        Some(&Terminator::Return(Operand::Value(0)))
    );
}

#[test]
fn unused_value_is_removed() {
    let cfg = build("let unused = 6 * 7; let result = 3 + 7; return result;");

    let (optimized, stats) = CfgOptimizer::optimize(&cfg);

    assert_eq!(stats.dead_instructions_removed, 2);
    assert_eq!(
        optimized.block(0).unwrap().terminator(),
        Some(&Terminator::Return(Operand::Constant(10)))
    );
}

#[test]
fn default_statistics_are_zero() {
    let stats = CfgOptimizationStats::default();

    assert_eq!(stats.blocks_before, 0);
    assert_eq!(stats.dead_instructions_removed, 0);
    assert_eq!(stats.block_reduction(), (0, 0));
}

#[test]
fn optimized_graph_keeps_entry_reaches_every_block_and_reads_every_result() {
    let cfg = build(
        "let x = 4 / 0; let y = 0; if 3 > 1 { y = x + 1; } else { y = 2; } let z = y * 2; return y;",
    );
    let (optimized, _) = CfgOptimizer::optimize(&cfg);

    assert_eq!(optimized.entry(), cfg.entry());
    let reachable = optimized.reachable_blocks();
    for block in optimized.blocks() {
        assert!(reachable.contains(&block.id()));
    }

    let reads = |id: u32| {
        let value = Operand::Value(id);
        optimized.blocks().iter().any(|block| {
            block.instructions().iter().any(|instruction| match instruction {
                Instruction::Binary { left, right, .. } => *left == value || *right == value,
                Instruction::Phi { incomings, .. } => incomings.iter().any(|(_, o)| *o == value),
                Instruction::Bind { value: v, .. } => *v == value,
            }) || match block.terminator() {
                Some(Terminator::Return(o)) => *o == value,
                Some(Terminator::Branch { condition, .. }) => *condition == value,
                _ => false,
            }
        })
    };
    for block in optimized.blocks() {
        for instruction in block.instructions() {
            match instruction {
                Instruction::Binary { result, .. } | Instruction::Phi { result, .. } => {
                    assert!(reads(*result));
                }
                Instruction::Bind { .. } => {}
            }
        }
    }
}

#[test]
fn optimized_graph_has_no_branch_on_constant() {
    let sources = [
        "let x = 1; if x > 0 { if true { return 1; } else { return 2; } } else { return 3; }",
        "let x = 10 / 0; if x > 0 { if false { return 1; } else { return 2; } } else { return 3; }",
        "let a = 9223372036854775807 + 1; if a == 0 { return 1; } else { if 1 < 2 { return 2; } else { return 4; } }",
    ];

    for source in sources {
        let cfg = build(source);
        let (optimized, _) = CfgOptimizer::optimize(&cfg);

        for block in optimized.blocks() {
            assert!(!matches!(
                block.terminator(),
                Some(Terminator::Branch { condition: Operand::Constant(_), .. })
            ));
        }
    }
}
