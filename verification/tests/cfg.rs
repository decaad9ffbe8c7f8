use helix::cfg::{CfgBuilder, ControlFlowGraph, Definitions, Instruction, Operand, Terminator};
use helix::cfg_runtime::CfgInterpreter;
use helix::lexer::Lexer;
use helix::parser::Parser;
use helix::types::TypeChecker;

fn build(source: &str) -> ControlFlowGraph {
    let mut lexer = Lexer::new(source);
    let tokens = lexer.tokenize().unwrap();

    let mut parser = Parser::new(tokens);
    let program = parser.parse_program().unwrap();

    let mut checker = TypeChecker::new();
    let typed = checker.check(&program).unwrap();

    CfgBuilder::new().build(&typed)
}

#[test]
fn if_else_creates_branching_cfg() {
    let cfg = build("if 10 > 5 { return 1; } else { return 0; }");

    assert_eq!(cfg.entry(), 0);
    assert_eq!(cfg.blocks().len(), 3);

    let entry = cfg.block(0).unwrap();

    assert!(matches!(
        entry.terminator(),
        Some(Terminator::Branch {
            then_block: 1,
            else_block: 2,
            ..
        })
    ));

    assert!(matches!(
        cfg.block(1).unwrap().terminator(),
        Some(Terminator::Return(_))
    ));

    assert!(matches!(
        cfg.block(2).unwrap().terminator(),
        Some(Terminator::Return(_))
    ));
}

#[test]
fn nested_if_creates_multiple_branch_blocks() {
    let cfg = build(
        "
        if 10 > 5 {
            if 3 < 4 {
                return 1;
            } else {
                return 2;
            }
        } else {
            return 0;
        }
        ",
    );

    let branch_count = cfg
        .blocks()
        .iter()
        .filter(|block| matches!(block.terminator(), Some(Terminator::Branch { .. })))
        .count();

    assert_eq!(branch_count, 2);
}

#[test]
fn arithmetic_condition_is_rejected() {
    let mut lexer = Lexer::new("if 42 { return 1; } else { return 0; }");

    let tokens = lexer.tokenize().unwrap();

    let mut parser = Parser::new(tokens);
    let program = parser.parse_program().unwrap();

    let mut checker = TypeChecker::new();

    assert!(checker.check(&program).is_err());
}

#[test]
fn cfg_reports_successors_and_predecessors() {
    let cfg = build("if 10 > 5 { return 1; } else { return 0; }");

    assert_eq!(cfg.successors(0), vec![1, 2]);
    assert_eq!(cfg.predecessors(1), vec![0]);
    assert_eq!(cfg.predecessors(2), vec![0]);
}

#[test]
fn unreachable_merge_block_is_pruned_when_both_branches_return() {
    let cfg = build("if 10 > 5 { return 1; } else { return 0; }");

    assert_eq!(cfg.blocks().len(), 3);

    assert!(cfg.block(3).is_none());
}

#[test]
fn symbol_use_resolves_to_definition_operand() {
    let cfg = build("let x = 10; if x > 5 { return x; } else { return 0; }");

    let entry = cfg.block(0).unwrap();

    assert!(!entry.instructions().is_empty());
}

#[test]
fn divergent_branch_assignments_create_phi() {
    let cfg = build(
        "
        let x = 0;

        if 10 > 5 {
            x = 10;
        } else {
            x = 20;
        }

        return x;
        ",
    );

    let merge = cfg
        .blocks()
        .iter()
        .find(|block| {
            block
                .instructions()
                .iter()
                .any(|instruction| matches!(instruction, Instruction::Phi { .. }))
        })
        .expect("expected phi merge block");

    let (phi_result, incomings) = merge
        .instructions()
        .iter()
        .find_map(|instruction| match instruction {
            Instruction::Phi {
                result, incomings, ..
            } => Some((*result, incomings)),
            _ => None,
        })
        .expect("expected phi");

    assert_eq!(incomings.len(), 2);

    assert!(matches!(
        merge.terminator(),
        Some(Terminator::Return(Operand::Value(value))) if *value == phi_result
    ));
}

#[test]
fn identical_branch_values_do_not_create_phi() {
    let cfg = build(
        "
        let x = 7;

        if 10 > 5 {
            x = 7;
        } else {
            x = 7;
        }

        return x;
        ",
    );

    let count = cfg
        .blocks()
        .iter()
        .flat_map(|block| block.instructions())
        .filter(|instruction| matches!(instruction, Instruction::Phi { .. }))
        .count();

    assert_eq!(count, 0);
}

#[test]
fn phi_inputs_are_cfg_predecessors() {
    let cfg = build(
        "
        let x = 0;

        if 10 > 5 {
            x = 1;
        } else {
            x = 2;
        }

        return x;
        ",
    );

    let merge = cfg
        .blocks()
        .iter()
        .find(|block| {
            block
                .instructions()
                .iter()
                .any(|instruction| matches!(instruction, Instruction::Phi { .. }))
        })
        .expect("expected phi merge");

    let incomings = merge
        .instructions()
        .iter()
        .find_map(|instruction| match instruction {
            Instruction::Phi { incomings, .. } => Some(incomings),
            _ => None,
        })
        .unwrap();

    let predecessors = cfg.predecessors(merge.id());

    assert_eq!(incomings.len(), predecessors.len());

    for (predecessor, _) in incomings {
        assert!(predecessors.contains(predecessor));
    }
}

#[test]
fn one_live_branch_does_not_require_phi() {
    let cfg = build(
        "
        let x = 0;

        if 10 > 5 {
            return 1;
        } else {
            x = 20;
        }

        return x;
        ",
    );

    let count = cfg
        .blocks()
        .iter()
        .flat_map(|block| block.instructions())
        .filter(|instruction| matches!(instruction, Instruction::Phi { .. }))
        .count();

    assert_eq!(count, 0);
}

#[test]
fn straight_line_program_has_one_block() {
    let cfg = build("let x = 10 + 20; return x * 2;");

    assert_eq!(cfg.blocks().len(), 1);

    let entry = cfg.block(0).unwrap();

    assert_eq!(entry.instructions().len(), 3);
    assert_eq!(
        entry.terminator(),
        Some(&Terminator::Return(Operand::Value(1)))
    );
    assert!(cfg.successors(0).is_empty());
}

#[test]
fn binary_values_are_numbered_in_order() {
    let cfg = build("let x = 1 + 2; let y = x * 3; return y;");

    let entry = cfg.block(0).unwrap();

    assert!(matches!(
        entry.instructions()[0],
        Instruction::Binary {
            result: 0,
            left: Operand::Constant(1),
            right: Operand::Constant(2),
            ..
        }
    ));
    assert!(matches!(
        entry.instructions()[2],
        Instruction::Binary {
            result: 1,
            left: Operand::Value(0),
            right: Operand::Constant(3),
            ..
        }
    ));
}

#[test]
fn merge_block_joins_both_branches() {
    let cfg = build(
        "
        let x = 0;

        if 10 > 5 {
            x = 1;
        } else {
            x = 2;
        }

        return x;
        ",
    );

    assert_eq!(cfg.successors(1), vec![3]);
    assert_eq!(cfg.successors(2), vec![3]);
    assert_eq!(cfg.predecessors(3), vec![1, 2]);
}

#[test]
fn reachable_blocks_start_at_entry() {
    let cfg = build("if 10 > 5 { return 1; } else { return 0; }");

    let reachable = cfg.reachable_blocks();

    assert_eq!(reachable.into_iter().collect::<Vec<_>>(), vec![0, 1, 2]);
}

#[test]
fn missing_block_has_no_successors() {
    let cfg = build("return 1;");

    assert!(cfg.block(7).is_none());
    assert!(cfg.successors(7).is_empty());
    assert!(cfg.predecessors(0).is_empty());
}

fn checked(source: &str) -> helix::types::TypedProgram {
    let mut lexer = Lexer::new(source);
    let tokens = lexer.tokenize().unwrap();

    let mut parser = Parser::new(tokens);
    let program = parser.parse_program().unwrap();

    let mut checker = TypeChecker::new();
    checker.check(&program).unwrap()
}

#[test]
fn checked_program_can_be_built() {
    let typed = checked(
        "
        let x = 1;
        if x > 0 { x = x + 1; } else { let y = 3; x = y; }
        return x * 2;
        ",
    );

    let builder = CfgBuilder::new();

    assert!(builder.can_build(&typed));

    let cfg = builder.build(&typed);

    assert!(helix::cfg_opt::CfgOptimizer::can_optimize(&cfg));
}

#[test]
fn phi_drops_incoming_from_pruned_block() {
    let cfg = build(
        "
        let x = 0;

        if 1 > 0 {
            if 2 > 1 { return 1; } else { return 2; }
            x = 5 + 1;
        } else {
            x = 7;
        }

        return x;
        ",
    );

    let merge = cfg
        .blocks()
        .iter()
        .find(|block| {
            block
                .instructions()
                .iter()
                .any(|instruction| matches!(instruction, Instruction::Phi { .. }))
        })
        .expect("expected phi merge");

    let incomings = merge
        .instructions()
        .iter()
        .find_map(|instruction| match instruction {
            Instruction::Phi { incomings, .. } => Some(incomings),
            _ => None,
        })
        .unwrap();

    let predecessors = cfg.predecessors(merge.id());

    assert_eq!(predecessors.len(), 1);
    assert_eq!(incomings.len(), predecessors.len());
    for (predecessor, operand) in incomings {
        assert!(predecessors.contains(predecessor));
        assert!(cfg.block(*predecessor).is_some());
        assert_eq!(*operand, Operand::Constant(7));
    }
    assert_eq!(CfgInterpreter::execute(&cfg), Ok(1));
}

#[test]
fn pruning_a_built_graph_again_changes_nothing() {
    let mut cfg = build(
        "
        let x = 1;
        if x > 0 { return 1; } else { return 2; }
        ",
    );

    let before_blocks: Vec<u32> = cfg.blocks().iter().map(|block| block.id()).collect();
    let before_reachable = cfg.reachable_blocks();

    cfg.prune_unreachable();

    let after_blocks: Vec<u32> = cfg.blocks().iter().map(|block| block.id()).collect();

    assert_eq!(before_blocks, after_blocks);
    assert_eq!(before_reachable, cfg.reachable_blocks());
}

#[test]
fn default_builder_matches_new() {
    let typed = checked("let x = 2; return x + 1;");

    let from_default = CfgBuilder::default().build(&typed);
    let from_new = CfgBuilder::new().build(&typed);

    assert_eq!(from_default, from_new);
}

#[test]
fn built_graph_shape() {
    let cfg = build(
        "let x = 1; if x > 0 { if false { return 1; } else { let y = x + 1; return y; } } else { return 3; }",
    );

    assert_eq!(cfg.entry(), 0);
    assert_eq!(cfg.blocks()[0].id(), 0);

    let ids: Vec<u32> = cfg.blocks().iter().map(|block| block.id()).collect();
    for pair in ids.windows(2) {
        assert!(pair[0] < pair[1]);
    }

    let reachable: Vec<u32> = cfg.reachable_blocks().into_iter().collect();
    assert_eq!(reachable, ids);

    for block in cfg.blocks() {
        assert!(block.terminator().is_some());
    }

    let mut results = Vec::new();
    for block in cfg.blocks() {
        for instruction in block.instructions() {
            match instruction {
                Instruction::Binary { result, .. } | Instruction::Phi { result, .. } => results.push(*result),
                Instruction::Bind { .. } => {}
            }
        }
    }
    let count = results.len();
    results.sort();
    results.dedup();
    assert_eq!(results.len(), count);
    assert!(count >= 2);

    let mut reads = Vec::new();
    for block in cfg.blocks() {
        for instruction in block.instructions() {
            match instruction {
                Instruction::Binary { left, right, .. } => {
                    reads.push(*left);
                    reads.push(*right);
                }
                Instruction::Phi { incomings, .. } => {
                    for (_, operand) in incomings {
                        reads.push(*operand);
                    }
                }
                Instruction::Bind { value, .. } => reads.push(*value),
            }
        }
        match block.terminator() {
            Some(Terminator::Return(value)) => reads.push(*value),
            Some(Terminator::Branch { condition, .. }) => reads.push(*condition),
            _ => {}
        }
    }
    for operand in reads {
        if let Operand::Value(value) = operand {
            assert!(results.contains(&value));
        }
    }
}

#[test]
fn definitions_keep_first_definition_order() {
    let mut definitions = Definitions::new();
    definitions.define(4, Operand::Constant(1));
    definitions.define(2, Operand::Value(0));
    definitions.define(4, Operand::Value(3));

    assert_eq!(definitions.len(), 2);
    assert_eq!(definitions.entry(0), (4, Operand::Value(3)));
    assert_eq!(definitions.entry(1), (2, Operand::Value(0)));
    assert_eq!(definitions.find(2), Some(Operand::Value(0)));
    assert_eq!(definitions.find(7), None);
    assert_eq!(definitions.operand_or_zero(7), Operand::Constant(0));
    assert_eq!(definitions.to_vec(), vec![(4, Operand::Value(3)), (2, Operand::Value(0))]);

    let copy = definitions.copy();
    assert_eq!(copy.to_vec(), definitions.to_vec());
}
