use std::collections::BTreeSet;

use helix::cfg::{CfgBuilder, ControlFlowGraph};
use helix::dominance::DominanceInfo;
use helix::lexer::Lexer;
use helix::parser::Parser;
use helix::types::TypeChecker;

fn build(source: &str) -> ControlFlowGraph {
    let mut lexer = Lexer::new(source);
    let tokens = lexer.tokenize().unwrap();

    let mut parser = Parser::new(tokens);
    let program = parser.parse_program().unwrap();

    let mut checker = TypeChecker::new();
    let typed = checker.check(&program).unwrap();

    CfgBuilder::new().build(&typed)
}

#[test]
fn entry_dominates_all_reachable_blocks() {
    let cfg = build(
        "
        if 10 > 5 {
            return 1;
        } else {
            return 0;
        }
        ",
    );

    let dominance = DominanceInfo::compute(&cfg);

    for block in cfg.reachable_blocks() {
        assert!(dominance.dominates(cfg.entry(), block));
    }
}

#[test]
fn branch_children_are_immediately_dominated_by_entry() {
    let cfg = build(
        "
        if 10 > 5 {
            return 1;
        } else {
            return 0;
        }
        ",
    );

    let dominance = DominanceInfo::compute(&cfg);

    assert_eq!(dominance.immediate_dominator(1), Some(0));
    assert_eq!(dominance.immediate_dominator(2), Some(0));
}

#[test]
fn dominator_tree_reports_branch_children() {
    let cfg = build(
        "
        if 10 > 5 {
            return 1;
        } else {
            return 0;
        }
        ",
    );

    let dominance = DominanceInfo::compute(&cfg);

    assert_eq!(dominance.dominator_tree_children(0), vec![1, 2]);
}

#[test]
fn nested_branch_has_expected_dominance() {
    let cfg = build(
        "
        if 10 > 5 {
            if 3 < 4 {
                return 1;
            } else {
                return 2;
            }
        } else {
            return 0;
        }
        ",
    );

    let dominance = DominanceInfo::compute(&cfg);

    assert!(dominance.dominates(0, 1));

    let nested_successors = cfg.successors(1);

    assert_eq!(nested_successors.len(), 2);

    for child in nested_successors {
        assert!(dominance.dominates(1, child));
        assert_eq!(dominance.immediate_dominator(child), Some(1));
    }
}

#[test]
fn dominator_sets_include_self() {
    let cfg = build(
        "
        if 10 > 5 {
            return 1;
        } else {
            return 0;
        }
        ",
    );

    let dominance = DominanceInfo::compute(&cfg);

    assert_eq!(dominance.dominators(0), Some(&BTreeSet::from([0])));

    assert_eq!(dominance.dominators(1), Some(&BTreeSet::from([0, 1])));
}

#[test]
fn merge_block_is_in_frontier_of_both_branches() {
    let cfg = build(
        "
        let x = 0;

        if 10 > 5 {
            x = 1;
        } else {
            x = 2;
        }

        return x;
        ",
    );

    let dominance = DominanceInfo::compute(&cfg);

    assert_eq!(dominance.dominance_frontier(1), Some(&BTreeSet::from([3])));
    assert_eq!(dominance.dominance_frontier(2), Some(&BTreeSet::from([3])));
    assert_eq!(dominance.dominance_frontier(0), Some(&BTreeSet::new()));
    assert_eq!(dominance.immediate_dominator(3), Some(0));
    assert_eq!(dominance.dominators(3), Some(&BTreeSet::from([0, 3])));
    assert_eq!(dominance.dominator_tree_children(0), vec![1, 2, 3]);
}

#[test]
fn unreachable_block_has_no_dominance_facts() {
    let cfg = build("return 1;");

    let dominance = DominanceInfo::compute(&cfg);

    assert_eq!(dominance.dominators(5), None);
    assert_eq!(dominance.dominance_frontier(5), None);
    assert_eq!(dominance.immediate_dominator(0), None);
    assert!(!dominance.dominates(0, 5));
    assert!(dominance.dominator_tree_children(0).is_empty());
}

#[test]
fn every_reachable_block_but_entry_has_immediate_dominator() {
    let cfg = build(
        "
        let x = 3;
        if x > 0 {
            if x < 5 { x = 1; } else { x = 2; }
            x = x + 1;
        } else {
            x = 0;
        }
        return x;
        ",
    );

    let dominance = DominanceInfo::compute(&cfg);

    assert_eq!(dominance.immediate_dominator(cfg.entry()), None);

    for block in cfg.blocks() {
        if block.id() != cfg.entry() {
            let parent = dominance.immediate_dominator(block.id()).expect("expected a parent");
            assert!(dominance.dominates(parent, block.id()));
            assert_ne!(parent, block.id());
        }
    }
}

#[test]
fn frontier_follows_predecessor_dominance() {
    let cfg = build(
        "
        let x = 3;
        if x > 0 {
            if x < 5 { x = 1; } else { x = 2; }
            x = x + 1;
        } else {
            x = 0;
        }
        return x;
        ",
    );

    let dominance = DominanceInfo::compute(&cfg);

    for block in cfg.blocks() {
        let x = block.id();
        let frontier = dominance.dominance_frontier(x).unwrap();
        for candidate in cfg.blocks() {
            let b = candidate.id();
            let predecessors = cfg.predecessors(b);
            let expected = b != cfg.entry()
                && predecessors.len() >= 2
                && predecessors.iter().any(|p| dominance.dominates(x, *p))
                && !(x != b && dominance.dominates(x, b));
            assert_eq!(frontier.contains(&b), expected, "frontier of {x} at {b}");
        }
    }
}

#[test]
fn strict_dominators_dominate_the_immediate_dominator() {
    let cfg = build(
        "let x = 0; if 10 > 5 { if 3 < 4 { x = 1; } else { x = 2; } } else { x = 3; } return x;",
    );
    let dominance = DominanceInfo::compute(&cfg);

    for block in cfg.reachable_blocks() {
        if block == cfg.entry() {
            assert_eq!(dominance.immediate_dominator(block), None);
            continue;
        }
        let idom = dominance.immediate_dominator(block).unwrap();
        for strict in dominance.dominators(block).unwrap() {
            if *strict != block {
                assert!(dominance.dominates(*strict, idom));
            }
        }
    }
}

#[test]
fn frontier_holds_blocks_with_a_dominated_predecessor() {
    let cfg = build("if 10 > 5 { let a = 1; } else { let b = 2; } return 0;");
    let dominance = DominanceInfo::compute(&cfg);

    assert_eq!(dominance.dominance_frontier(1), Some(&BTreeSet::from([3])));
    assert_eq!(dominance.dominance_frontier(2), Some(&BTreeSet::from([3])));
    assert_eq!(dominance.dominance_frontier(0), Some(&BTreeSet::new()));
}

#[test]
fn cloned_dominance_info_is_equal() {
    let cfg = build("let x = 1; if x > 0 { return 1; } else { return 2; }");

    let info = DominanceInfo::compute(&cfg);

    assert_eq!(info.clone(), info);
}
