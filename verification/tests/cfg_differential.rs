use helix::cfg::{CfgBuilder, ControlFlowGraph};
use helix::cfg_opt::CfgOptimizer;
use helix::cfg_runtime::{CfgInterpreter, CfgRuntimeError};
use helix::lexer::Lexer;
use helix::parser::Parser;
use helix::types::TypeChecker;

fn build(source: &str) -> ControlFlowGraph {
    let mut lexer = Lexer::new(source);
    let tokens = lexer.tokenize().unwrap();

    let mut parser = Parser::new(tokens);
    let program = parser.parse_program().unwrap();

    let mut checker = TypeChecker::new();
    let typed = checker.check(&program).unwrap();

    CfgBuilder::new().build(&typed)
}

fn assert_equivalent(source: &str) {
    let cfg = build(source);

    let before = CfgInterpreter::execute(&cfg).unwrap();

    let (optimized, _) = CfgOptimizer::optimize(&cfg);

    let after = CfgInterpreter::execute(&optimized).unwrap();

    assert_eq!(
        before, after,
        "optimizer changed program semantics:\n{source}",
    );
}

#[test]
fn preserves_arithmetic_result() {
    assert_equivalent(
        "
        let x = 10 + 20;
        return x * 2;
        ",
    );
}

#[test]
fn preserves_true_branch() {
    assert_equivalent(
        "
        let x = 10;

        if x > 5 {
            return x + 1;
        } else {
            return 0;
        }
        ",
    );
}

#[test]
fn preserves_false_branch() {
    assert_equivalent(
        "
        let x = 2;

        if x > 5 {
            return 100;
        } else {
            return x + 3;
        }
        ",
    );
}

#[test]
fn preserves_phi_result() {
    assert_equivalent(
        "
        let x = 0;

        if 7 > 3 {
            x = 11;
        } else {
            x = 22;
        }

        return x;
        ",
    );
}

#[test]
fn preserves_nested_control_flow() {
    assert_equivalent(
        "
        let x = 3;

        if x > 0 {
            if x < 5 {
                return x * 10;
            } else {
                return 99;
            }
        } else {
            return 0;
        }
        ",
    );
}

#[test]
fn preserves_assignment_after_merge() {
    assert_equivalent(
        "
        let x = 1;

        if 4 == 4 {
            x = 10;
        } else {
            x = 20;
        }

        let y = x + 7;
        return y;
        ",
    );
}

#[test]
fn interpreter_returns_program_values() {
    assert_eq!(CfgInterpreter::execute(&build("let x = 10 + 20; return x * 2;")), Ok(60));
    assert_eq!(
        CfgInterpreter::execute(&build(
            "let x = 0; if 7 > 3 { x = 11; } else { x = 22; } return x;"
        )),
        Ok(11)
    );
    assert_eq!(
        CfgInterpreter::execute(&build(
            "let x = 0; if 7 < 3 { x = 11; } else { x = 22; } return x;"
        )),
        Ok(22)
    );
}

#[test]
fn cfg_interpreter_reports_division_by_zero() {
    let cfg = build("return 10 / 0;");

    assert_eq!(
        CfgInterpreter::execute(&cfg),
        Err(CfgRuntimeError::DivisionByZero)
    );

    let (optimized, _) = CfgOptimizer::optimize(&cfg);

    assert_eq!(
        CfgInterpreter::execute(&optimized),
        Err(CfgRuntimeError::DivisionByZero)
    );
}

#[test]
fn cfg_interpreter_reports_overflow() {
    let cfg = build("return 9223372036854775807 + 1;");

    assert_eq!(
        CfgInterpreter::execute(&cfg),
        Err(CfgRuntimeError::IntegerOverflow)
    );
}

#[test]
fn preserves_program_without_else() {
    assert_equivalent(
        "
        let x = 5;

        if x > 1 {
            x = x * 3;
        }

        return x - 1;
        ",
    );
}

#[test]
fn checked_programs_never_run_past_their_blocks() {
    let sources = [
        "let x = 1; if x > 0 { return 1; } else { return 2; }",
        "let x = 3; if x > 5 { if x < 9 { return x; } else { return 0 - x; } } else { x = x * 2; } return x;",
        "let y = 4; if y == 4 { y = 0; } return 100 / y;",
    ];

    for source in sources {
        let cfg = build(source);
        let (optimized, _) = CfgOptimizer::optimize(&cfg);

        for graph in [&cfg, &optimized] {
            let result = CfgInterpreter::execute(graph);
            assert_ne!(result, Err(CfgRuntimeError::MissingReturn));
            assert_ne!(result, Err(CfgRuntimeError::StepLimitExceeded));
        }
    }

    assert_eq!(
        CfgInterpreter::execute(&build("let y = 4; if y == 4 { y = 0; } return 100 / y;")),
        Err(CfgRuntimeError::DivisionByZero)
    );
}

#[test]
fn checked_programs_run_to_a_value_or_an_arithmetic_error() {
    let cases = [
        ("let x = 2; if x > 1 { x = x * 10; } else { x = 0 - x; } return x + 1;", Ok(21)),
        ("let a = 5; let b = 0; if a > 3 { b = a - 5; } return a / b;", Err(CfgRuntimeError::DivisionByZero)),
        (
            "let big = 9223372036854775807; if big > 0 { big = big + 1; } return big;",
            Err(CfgRuntimeError::IntegerOverflow),
        ),
        ("let y = 1; if y == 1 { if y < 2 { y = 7; } else { y = 8; } } else { return 0; } return y;", Ok(7)),
    ];

    for (source, expected) in cases {
        let cfg = build(source);
        let (optimized, _) = CfgOptimizer::optimize(&cfg);
        assert_eq!(CfgInterpreter::execute(&cfg), expected, "{source}");
        assert_eq!(CfgInterpreter::execute(&optimized), expected, "{source}");
    }
}
