use std::collections::BTreeSet;

use helix::cfg::CfgBuilder;
use helix::cfg_opt::CfgOptimizer;
use helix::cfg_runtime::CfgInterpreter;
use helix::corpus::{benchmark_programs, literal};
use helix::lexer::Lexer;
use helix::parser::Parser;
use helix::types::TypeChecker;

fn reference_literal(value: i64) -> String {
    if value < 0 {
        format!("0 - {}", value.unsigned_abs())
    } else {
        value.to_string()
    }
}

fn reference_programs() -> Vec<String> {
    let mut corpus = Vec::new();
    for a in -10_i64..=10 {
        for b in -10_i64..=10 {
            let a = reference_literal(a);
            let b = reference_literal(b);
            corpus.push(format!(
                "
                let x = {a} + {b};
                return x * 2;
                "
            ));
        }
    }
    for a in -10_i64..=10 {
        for b in -10_i64..=10 {
            let a = reference_literal(a);
            let b = reference_literal(b);
            corpus.push(format!(
                "
                let x = {a};

                if x > {b} {{
                    return x + 1;
                }} else {{
                    return x - 1;
                }}
                "
            ));
        }
    }
    for a in -8_i64..=8 {
        for b in -8_i64..=8 {
            let a_text = reference_literal(a);
            let b_text = reference_literal(b);
            corpus.push(format!(
                "
                let x = 0;

                if {a_text} >= {b_text} {{
                    x = {a_text} + 3;
                }} else {{
                    x = {b_text} - 2;
                }}

                return x;
                "
            ));
        }
    }
    for x in -8_i64..=8 {
        let x = reference_literal(x);
        corpus.push(format!(
            "
            let x = {x};

            if x > 0 {{
                if x < 5 {{
                    return x * 10;
                }} else {{
                    return x + 100;
                }}
            }} else {{
                return 0 - x;
            }}
            "
        ));
    }
    for x in 1_i64..=100 {
        corpus.push(format!(
            "
            let unused = {x} * {x};
            let result = {x} + 7;
            return result;
            "
        ));
    }
    corpus
}

#[test]
fn literals_are_decimal_or_subtracted_from_zero() {
    assert_eq!(literal(0), "0");
    assert_eq!(literal(42), "42");
    assert_eq!(literal(-7), "0 - 7");
    assert_eq!(literal(i64::MIN), "0 - 9223372036854775808");
    assert_eq!(literal(i64::MAX), "9223372036854775807");
}

#[test]
fn benchmark_corpus_has_every_program_in_order() {
    let corpus = benchmark_programs();
    assert_eq!(corpus.len(), 1288);
    assert_eq!(corpus, reference_programs());
}

#[test]
fn every_benchmark_program_keeps_its_result_when_optimized() {
    let mut outcomes = BTreeSet::new();
    for source in benchmark_programs() {
        let tokens = Lexer::new(&source).tokenize().unwrap();
        let program = Parser::new(tokens).parse_program().unwrap();
        let typed = TypeChecker::new().check(&program).unwrap();
        let cfg = CfgBuilder::new().build(&typed);
        let before = CfgInterpreter::execute(&cfg).unwrap();
        let (optimized, _) = CfgOptimizer::optimize(&cfg);
        let after = CfgInterpreter::execute(&optimized).unwrap();
        assert_eq!(before, after, "{source}");
        outcomes.insert(after);
    }
    assert_eq!(outcomes.len(), 135);
}
