use helix::ast::Program;
use helix::ir::Lowerer;
use helix::lexer::Lexer;
use helix::parser::Parser;
use helix::runtime::{Interpreter, RuntimeError};
use helix::types::{SemanticError, Type, TypeChecker};

fn parse(source: &str) -> Program {
    let mut lexer = Lexer::new(source);

    let tokens = lexer.tokenize().unwrap();

    let mut parser = Parser::new(tokens);

    parser.parse_program().unwrap()
}

#[test]
fn resolves_symbols_and_infers_i64() {
    let program = parse("let x = 10; let y = x + 2; return y;");

    let mut checker = TypeChecker::new();

    let typed = checker.check(&program).unwrap();

    assert_eq!(typed.symbols().len(), 2);

    assert_eq!(typed.symbols()[0].name(), "x");

    assert_eq!(typed.symbols()[0].ty(), Type::I64);

    assert_eq!(typed.symbols()[1].name(), "y");
}

#[test]
fn undefined_identifier_is_rejected() {
    let program = parse("return missing + 1;");

    let mut checker = TypeChecker::new();

    assert_eq!(
        checker.check(&program),
        Err(SemanticError::UndefinedIdentifier("missing".into()))
    );
}

#[test]
fn duplicate_binding_is_rejected() {
    let program = parse("let x = 1; let x = 2; return x;");

    let mut checker = TypeChecker::new();

    assert_eq!(
        checker.check(&program),
        Err(SemanticError::DuplicateBinding("x".into()))
    );
}

#[test]
fn use_before_definition_is_rejected() {
    let program = parse("let y = x + 1; let x = 2; return y;");

    let mut checker = TypeChecker::new();

    assert_eq!(
        checker.check(&program),
        Err(SemanticError::UndefinedIdentifier("x".into()))
    );
}

#[test]
fn missing_return_is_rejected() {
    let program = parse("let x = 10;");

    let mut checker = TypeChecker::new();

    assert_eq!(checker.check(&program), Err(SemanticError::MissingReturn));
}

#[test]
fn interpreter_executes_typed_program() {
    let program = parse("let x = 10; let y = x + 20; return y * 2;");

    let mut checker = TypeChecker::new();

    let typed = checker.check(&program).unwrap();

    let ir = Lowerer::lower(&typed);

    let mut interpreter = Interpreter::new();

    assert_eq!(interpreter.execute(&ir).unwrap(), 60);
}

#[test]
fn division_by_zero_is_runtime_error() {
    let program = parse("return 10 / 0;");

    let mut checker = TypeChecker::new();

    let typed = checker.check(&program).unwrap();

    let ir = Lowerer::lower(&typed);

    let mut interpreter = Interpreter::new();

    assert_eq!(interpreter.execute(&ir), Err(RuntimeError::DivisionByZero));
}

#[test]
fn non_boolean_condition_is_rejected() {
    let program = parse("if 1 + 1 { return 1; } else { return 0; }");

    let mut checker = TypeChecker::new();

    assert_eq!(
        checker.check(&program),
        Err(SemanticError::NonBooleanCondition)
    );
}

#[test]
fn mixed_operands_are_rejected() {
    let program = parse("return 1 + true;");

    let mut checker = TypeChecker::new();

    assert_eq!(
        checker.check(&program),
        Err(SemanticError::InvalidBinaryOperands)
    );
}

#[test]
fn assignment_of_other_type_is_rejected() {
    let program = parse("let x = 1; x = true; return x;");

    let mut checker = TypeChecker::new();

    assert_eq!(
        checker.check(&program),
        Err(SemanticError::MismatchedAssignment("x".into()))
    );
}

#[test]
fn assignment_to_unbound_name_is_rejected() {
    let program = parse("y = 1; return 0;");

    let mut checker = TypeChecker::new();

    assert_eq!(
        checker.check(&program),
        Err(SemanticError::UndefinedIdentifier("y".into()))
    );
}

#[test]
fn comparisons_are_boolean() {
    let program = parse("let b = 1 < 2; return b;");

    let mut checker = TypeChecker::new();

    let typed = checker.check(&program).unwrap();

    assert_eq!(typed.symbols()[0].ty(), Type::Bool);
}

#[test]
fn branch_with_returns_on_both_sides_is_accepted() {
    let program = parse("if true { return 1; } else { return 2; }");

    let mut checker = TypeChecker::new();

    assert!(checker.check(&program).is_ok());
}

#[test]
fn interpreter_reports_overflow() {
    let program = parse("return 9223372036854775807 + 1;");

    let mut checker = TypeChecker::new();

    let typed = checker.check(&program).unwrap();

    let ir = Lowerer::lower(&typed);

    let mut interpreter = Interpreter::new();

    assert_eq!(interpreter.execute(&ir), Err(RuntimeError::IntegerOverflow));
}

#[test]
fn division_truncates_toward_zero() {
    let program = parse("return (0 - 7) / 2;");

    let mut checker = TypeChecker::new();

    let typed = checker.check(&program).unwrap();

    let ir = Lowerer::lower(&typed);

    let mut interpreter = Interpreter::new();

    assert_eq!(interpreter.execute(&ir), Ok(-3));
}

#[test]
fn only_branch_free_programs_lower_to_linear_ir() {
    let mut checker = TypeChecker::new();
    let straight = checker.check(&parse("let x = 1; return x + 2;")).unwrap();

    assert!(Lowerer::can_lower(&straight));

    let mut checker = TypeChecker::new();
    let branching = checker
        .check(&parse("if 1 > 0 { return 1; } else { return 2; }"))
        .unwrap();

    assert!(!Lowerer::can_lower(&branching));
}

#[test]
fn default_checker_and_interpreter_start_empty() {
    let mut checker = TypeChecker::default();
    let typed = checker.check(&parse("let x = 4; return x * 5;")).unwrap();
    let ir = Lowerer::lower(&typed);

    assert_eq!(Interpreter::default().execute(&ir), Ok(20));
    assert_eq!(typed.symbols()[0].id(), 0);
}

#[test]
fn checked_programs_read_only_bound_symbols() {
    let sources = [
        "let x = 3; let y = x * x; x = y - x; return x + y;",
        "let a = 1; let b = a + 1; let c = b / 0; return c;",
        "let a = 9223372036854775807; a = a + 1; return a;",
    ];

    for source in sources {
        let mut checker = TypeChecker::new();
        let typed = checker.check(&parse(source)).unwrap();
        let ir = Lowerer::lower(&typed);
        let result = Interpreter::new().execute(&ir);

        assert!(!matches!(result, Err(RuntimeError::UndefinedSymbol(_))));
        assert_ne!(result, Err(RuntimeError::MissingReturn));
    }

    let mut checker = TypeChecker::new();
    let typed = checker
        .check(&parse("let x = 3; let y = x * x; x = y - x; return x + y;"))
        .unwrap();
    assert_eq!(Interpreter::new().execute(&Lowerer::lower(&typed)), Ok(15));
}

#[test]
fn checker_numbers_symbols_in_binding_order() {
    let program = parse(
        "let a = 1; if a > 0 { let b = 2; a = b; } else { let c = 3; a = c; } let d = a; return d;",
    );
    let mut checker = TypeChecker::new();
    let typed = checker.check(&program).unwrap();
    let names: Vec<&str> = typed.symbols().iter().map(|s| s.name()).collect();

    assert_eq!(names, vec!["a", "b", "c", "d"]);
    for (i, symbol) in typed.symbols().iter().enumerate() {
        assert_eq!(symbol.id() as usize, i);
    }
}

#[test]
fn symbols_follow_let_order_with_then_before_else() {
    let program = parse(
        "let a = 1; if a > 0 { let b = 2; return b; } else { let c = 3; let d = c; return d; }",
    );

    let typed = TypeChecker::new().check(&program).unwrap();

    let names: Vec<&str> = typed.symbols().iter().map(|symbol| symbol.name()).collect();
    assert_eq!(names, vec!["a", "b", "c", "d"]);

    let ids: Vec<u32> = typed.symbols().iter().map(|symbol| symbol.id()).collect();
    assert_eq!(ids, vec![0, 1, 2, 3]);
}

#[test]
fn missing_return_only_when_no_other_error() {
    let missing = parse("let x = 1;");
    assert_eq!(TypeChecker::new().check(&missing), Err(SemanticError::MissingReturn));

    let other_first = parse("let x = y;");
    assert_eq!(
        TypeChecker::new().check(&other_first),
        Err(SemanticError::UndefinedIdentifier("y".into()))
    );

    let one_branch = parse("if true { return 1; } else { let z = 2; }");
    assert_eq!(TypeChecker::new().check(&one_branch), Err(SemanticError::MissingReturn));
}

#[test]
fn can_check_counts_every_nested_let() {
    let program = parse("let a = 1; if a > 0 { let b = 2; return b; } else { return a; }");

    assert!(TypeChecker::new().can_check(&program));

    let mut checker = TypeChecker::new();
    checker.check(&parse("let p = 1; let q = 2; return q;")).unwrap();
    assert!(checker.can_check(&program));
}

#[test]
fn cloned_typed_program_is_equal() {
    let program = parse("let a = 1; if a > 0 { let b = 2; return b; } else { return a; }");

    let typed = TypeChecker::new().check(&program).unwrap();
    let copy = typed.clone();

    assert_eq!(copy, typed);
    assert_eq!(copy.statements()[1].clone(), typed.statements()[1]);
}
