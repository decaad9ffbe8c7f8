use vstd::prelude::*;

use crate::ast::{statements_view, BinaryOp, Expr, Program, SpecStatement, Statement};

verus! {

pub type SymbolId = u32;

/// The types of the source language.
#[derive(Debug, Clone, Copy, PartialEq, Eq, Structural)]
pub enum Type {
    I64,
    Bool,
}

/// A named binding with its identity and type.
#[derive(Debug, PartialEq, Eq)]
pub struct Symbol {
    id: SymbolId,
    name: String,
    ty: Type,
}

impl Clone for Symbol {
    fn clone(&self) -> (copy: Self)
        ensures
            copy == *self,
    {
        Symbol { id: self.id, name: self.name.clone(), ty: self.ty }
    }
}

impl Symbol {
    pub closed spec fn spec_id(self) -> SymbolId {
        self.id
    }

    pub closed spec fn spec_name(self) -> String {
        self.name
    }

    pub closed spec fn spec_ty(self) -> Type {
        self.ty
    }

    /// The symbol with the given parts.
    pub closed spec fn make(id: SymbolId, name: String, ty: Type) -> Symbol {
        Symbol { id, name, ty }
    }

    pub fn id(&self) -> (id: SymbolId)
        ensures
            id == self.spec_id(),
    {
        self.id
    }

    pub fn name(&self) -> (name: &str)
        ensures
            name@ == self.spec_name()@,
    {
        self.name.as_str()
    }

    pub fn ty(&self) -> (ty: Type)
        ensures
            ty == self.spec_ty(),
    {
        self.ty
    }
}

/// Expressions annotated with their types and resolved symbols.
#[derive(Debug, PartialEq)]
pub enum TypedExpr {
    Integer { value: i64, ty: Type },
    Boolean { value: bool, ty: Type },
    Symbol { symbol_id: SymbolId, name: String, ty: Type },
    Binary { left: Box<TypedExpr>, op: BinaryOp, right: Box<TypedExpr>, ty: Type },
}

impl Clone for TypedExpr {
    fn clone(&self) -> (copy: Self)
        ensures
            copy == *self,
        decreases self,
    {
        match self {
            TypedExpr::Integer { value, ty } => TypedExpr::Integer { value: *value, ty: *ty },
            TypedExpr::Boolean { value, ty } => TypedExpr::Boolean { value: *value, ty: *ty },
            TypedExpr::Symbol { symbol_id, name, ty } => TypedExpr::Symbol {
                symbol_id: *symbol_id,
                name: name.clone(),
                ty: *ty,
            },
            TypedExpr::Binary { left, op, right, ty } => TypedExpr::Binary {
                left: Box::new((**left).clone()),
                op: *op,
                right: Box::new((**right).clone()),
                ty: *ty,
            },
        }
    }
}

impl TypedExpr {
    /// The type recorded on an expression.
    pub open spec fn spec_ty(self) -> Type {
        match self {
            TypedExpr::Integer { ty, .. } => ty,
            TypedExpr::Boolean { ty, .. } => ty,
            TypedExpr::Symbol { ty, .. } => ty,
            TypedExpr::Binary { ty, .. } => ty,
        }
    }

    pub fn ty(&self) -> (ty: Type)
        ensures
            ty == self.spec_ty(),
    {
        match self {
            TypedExpr::Integer { ty, .. } => *ty,
            TypedExpr::Boolean { ty, .. } => *ty,
            TypedExpr::Symbol { ty, .. } => *ty,
            TypedExpr::Binary { ty, .. } => *ty,
        }
    }
}

/// Statements with resolved symbols and typed expressions.
#[derive(Debug, PartialEq)]
pub enum TypedStatement {
    Let { symbol: Symbol, value: TypedExpr },
    Assign { symbol: Symbol, value: TypedExpr },
    Return { value: TypedExpr },
    If { condition: TypedExpr, then_branch: Vec<TypedStatement>, else_branch: Vec<TypedStatement> },
}

/// The mathematical form of a typed statement: branches are sequences.
pub enum SpecTypedStatement {
    Let { symbol: Symbol, value: TypedExpr },
    Assign { symbol: Symbol, value: TypedExpr },
    Return { value: TypedExpr },
    If {
        condition: TypedExpr,
        then_branch: Seq<SpecTypedStatement>,
        else_branch: Seq<SpecTypedStatement>,
    },
}

impl View for TypedStatement {
    type V = SpecTypedStatement;

    open spec fn view(&self) -> SpecTypedStatement
        decreases self,
    {
        match self {
            TypedStatement::Let { symbol, value } => SpecTypedStatement::Let {
                symbol: *symbol,
                value: *value,
            },
            TypedStatement::Assign { symbol, value } => SpecTypedStatement::Assign {
                symbol: *symbol,
                value: *value,
            },
            TypedStatement::Return { value } => SpecTypedStatement::Return { value: *value },
            TypedStatement::If { condition, then_branch, else_branch } => SpecTypedStatement::If {
                condition: *condition,
                then_branch: typed_statements_view(then_branch@),
                else_branch: typed_statements_view(else_branch@),
            },
        }
    }
}

/// The views of a sequence of typed statements.
pub open spec fn typed_statements_view(statements: Seq<TypedStatement>) -> Seq<SpecTypedStatement>
    decreases statements,
{
    Seq::new(
        statements.len(),
        |i: int|
            if 0 <= i < statements.len() {
                statements[i].view()
            } else {
                SpecTypedStatement::Return { value: TypedExpr::Integer { value: 0, ty: Type::I64 } }
            },
    )
}

/// The number of `let` statements in one statement, nested ones included.
pub open spec fn statement_let_count(statement: SpecStatement) -> nat {
    match statement {
        SpecStatement::Let { .. } => 1,
        SpecStatement::If { then_branch, else_branch, .. } => let_count(then_branch) + let_count(
            else_branch,
        ),
        _ => 0,
    }
}

/// A non-empty block counts the `let`s of its first statement, then those of the rest.
proof fn lemma_let_count_first(statements: Seq<SpecStatement>)
    requires
        statements.len() > 0,
    ensures
        let_count(statements) == statement_let_count(statements[0]) + let_count(
            statements.subrange(1, statements.len() as int),
        ),
{
}

/// How much of `budget` is left after one per `let` of the statement, or `None` where they
/// do not fit.
fn statement_lets_within(statement: &Statement, budget: u64) -> (left: Option<u64>)
    ensures
        match left {
            Some(r) => statement_let_count(statement@) <= budget && r == budget
                - statement_let_count(statement@),
            None => statement_let_count(statement@) > budget,
        },
    decreases statement, 0int,
{
    match statement {
        Statement::Let { .. } => if budget >= 1 {
            Some(budget - 1)
        } else {
            None
        },
        Statement::If { then_branch, else_branch, .. } => {
            proof {
                assert(statements_view(then_branch@).subrange(0, then_branch@.len() as int)
                    =~= statements_view(then_branch@));
                assert(statements_view(else_branch@).subrange(0, else_branch@.len() as int)
                    =~= statements_view(else_branch@));
            }
            match lets_within(then_branch, 0, budget) {
                None => None,
                Some(rest) => lets_within(else_branch, 0, rest),
            }
        },
        _ => Some(budget),
    }
}

/// How much of `budget` is left after one per `let` of `statements[start..]`, nested ones
/// included, or `None` where they do not fit.
fn lets_within(statements: &Vec<Statement>, start: usize, budget: u64) -> (left: Option<u64>)
    requires
        start <= statements@.len(),
    ensures
        ({
            let count = let_count(
                statements_view(statements@).subrange(start as int, statements@.len() as int),
            );
            match left {
                Some(r) => count <= budget && r == budget - count,
                None => count > budget,
            }
        }),
    decreases statements, statements@.len() - start,
{
    let ghost view = statements_view(statements@);
    let ghost rest = view.subrange(start as int, statements@.len() as int);
    if start == statements.len() {
        assert(rest.len() == 0);
        return Some(budget);
    }
    proof {
        assert(decreases_to!(statements => statements@));
        assert(decreases_to!(statements@ => statements@[start as int]));
        assert(rest[0] == statements@[start as int]@);
        assert(rest.subrange(1, rest.len() as int) =~= view.subrange(
            start + 1,
            statements@.len() as int,
        ));
        lemma_let_count_first(rest);
    }
    match statement_lets_within(&statements[start], budget) {
        None => None,
        Some(after) => lets_within(statements, start + 1, after),
    }
}

/// A copy of one typed statement, branches included.
fn clone_statement(statement: &TypedStatement) -> (copy: TypedStatement)
    ensures
        copy@ == statement@,
    decreases statement, 1nat,
{
    match statement {
        TypedStatement::Let { symbol, value } => TypedStatement::Let {
            symbol: symbol.clone(),
            value: value.clone(),
        },
        TypedStatement::Assign { symbol, value } => TypedStatement::Assign {
            symbol: symbol.clone(),
            value: value.clone(),
        },
        TypedStatement::Return { value } => TypedStatement::Return { value: value.clone() },
        TypedStatement::If { condition, then_branch, else_branch } => {
            let then_copy = clone_statements(then_branch);
            let else_copy = clone_statements(else_branch);
            TypedStatement::If {
                condition: condition.clone(),
                then_branch: then_copy,
                else_branch: else_copy,
            }
        },
    }
}

/// A copy of a list of typed statements, element by element.
fn clone_statements(statements: &Vec<TypedStatement>) -> (copy: Vec<TypedStatement>)
    ensures
        typed_statements_view(copy@) == typed_statements_view(statements@),
    decreases statements, 0nat,
{
    let mut copy: Vec<TypedStatement> = Vec::new();
    let mut i: usize = 0;
    while i < statements.len()
        invariant
            i <= statements.len(),
            copy@.len() == i,
            forall|j: int| 0 <= j < i ==> #[trigger] copy@[j]@ == statements@[j]@,
        decreases statements.len() - i,
    {
        proof {
            assert(decreases_to!(statements => statements@));
            assert(decreases_to!(statements@ => statements@[i as int]));
        }
        let item = clone_statement(&statements[i]);
        copy.push(item);
        i = i + 1;
    }
    assert forall|j: int| 0 <= j < copy@.len() implies #[trigger] typed_statements_view(copy@)[j]
        == typed_statements_view(statements@)[j] by {
        assert(copy@[j]@ == statements@[j]@);
    }
    assert(typed_statements_view(copy@) =~= typed_statements_view(statements@));
    copy
}

impl Clone for TypedStatement {
    fn clone(&self) -> (copy: Self)
        ensures
            copy@ == self@,
    {
        clone_statement(self)
    }
}

/// A type-checked program: its statements and every symbol it binds, in binding order.
#[derive(Debug, PartialEq)]
pub struct TypedProgram {
    statements: Vec<TypedStatement>,
    symbols: Vec<Symbol>,
}

impl Clone for TypedProgram {
    fn clone(&self) -> (copy: Self)
        ensures
            copy.spec_statements() == self.spec_statements(),
            copy.spec_symbols() == self.spec_symbols(),
    {
        let statements = clone_statements(&self.statements);
        let mut symbols: Vec<Symbol> = Vec::new();
        let mut i: usize = 0;
        while i < self.symbols.len()
            invariant
                i <= self.symbols.len(),
                symbols@ == self.symbols@.take(i as int),
            decreases self.symbols.len() - i,
        {
            symbols.push(self.symbols[i].clone());
            i = i + 1;
            assert(symbols@ =~= self.symbols@.take(i as int));
        }
        assert(symbols@ =~= self.symbols@);
        TypedProgram { statements, symbols }
    }
}

impl TypedProgram {
    pub closed spec fn spec_statements(self) -> Seq<SpecTypedStatement> {
        typed_statements_view(self.statements@)
    }

    pub closed spec fn spec_symbols(self) -> Seq<Symbol> {
        self.symbols@
    }

    pub fn statements(&self) -> (statements: &[TypedStatement])
        ensures
            typed_statements_view(statements@) == self.spec_statements(),
    {
        self.statements.as_slice()
    }

    pub fn symbols(&self) -> (symbols: &[Symbol])
        ensures
            symbols@ == self.spec_symbols(),
    {
        self.symbols.as_slice()
    }
}

/// Errors found by semantic analysis.
#[derive(Debug, PartialEq, Eq)]
pub enum SemanticError {
    UndefinedIdentifier(String),
    DuplicateBinding(String),
    MissingReturn,
    NonBooleanCondition,
    InvalidBinaryOperands,
    MismatchedAssignment(String),
}

/// The first symbol in `scope` with the given name.
pub open spec fn lookup(scope: Seq<Symbol>, name: Seq<char>) -> Option<Symbol>
    decreases scope.len(),
{
    if scope.len() == 0 {
        None
    } else if scope[0].spec_name()@ == name {
        Some(scope[0])
    } else {
        lookup(scope.subrange(1, scope.len() as int), name)
    }
}

/// The type of a binary operation on operands of the given types.
pub open spec fn binary_result_type_spec(op: BinaryOp, left: Type, right: Type) -> Result<
    Type,
    SemanticError,
> {
    if op is Equal || op is NotEqual {
        if left == right {
            Ok(Type::Bool)
        } else {
            Err(SemanticError::InvalidBinaryOperands)
        }
    } else if left == Type::I64 && right == Type::I64 {
        if op.is_comparison() {
            Ok(Type::Bool)
        } else {
            Ok(Type::I64)
        }
    } else {
        Err(SemanticError::InvalidBinaryOperands)
    }
}

/// Type checking of an expression under the bindings of `scope`.
pub open spec fn check_expr_spec(scope: Seq<Symbol>, expr: Expr) -> Result<TypedExpr, SemanticError>
    decreases expr,
{
    match expr {
        Expr::Integer(value) => Ok(TypedExpr::Integer { value, ty: Type::I64 }),
        Expr::Boolean(value) => Ok(TypedExpr::Boolean { value, ty: Type::Bool }),
        Expr::Identifier(name) => match lookup(scope, name@) {
            Some(symbol) => Ok(
                TypedExpr::Symbol {
                    symbol_id: symbol.spec_id(),
                    name: symbol.spec_name(),
                    ty: symbol.spec_ty(),
                },
            ),
            None => Err(SemanticError::UndefinedIdentifier(name)),
        },
        Expr::Binary { left, op, right } => match check_expr_spec(scope, *left) {
            Err(e) => Err(e),
            Ok(l) => match check_expr_spec(scope, *right) {
                Err(e) => Err(e),
                Ok(r) => match binary_result_type_spec(op, l.spec_ty(), r.spec_ty()) {
                    Err(e) => Err(e),
                    Ok(ty) => Ok(TypedExpr::Binary { left: Box::new(l), op, right: Box::new(r), ty }),
                },
            },
        },
    }
}

/// The state of the checker: the visible bindings, every symbol bound so far, the next id.
pub struct CheckState {
    pub scope: Seq<Symbol>,
    pub symbols: Seq<Symbol>,
    pub next_id: int,
}

/// Type checking of a block: its typed statements, or the first error, and the state in which
/// checking stopped. Bindings made inside a branch are visible only in that branch.
pub open spec fn check_block_spec(state: CheckState, statements: Seq<SpecStatement>) -> (
    Result<Seq<SpecTypedStatement>, SemanticError>,
    CheckState,
)
    decreases statements,
{
    if statements.len() == 0 {
        (Ok(Seq::empty()), state)
    } else {
        let rest = statements.subrange(1, statements.len() as int);
        let (first, after) = check_statement_spec(state, statements[0]);
        match first {
            Err(e) => (Err(e), after),
            Ok(typed) => {
                let (others, last) = check_block_spec(after, rest);
                match others {
                    Err(e) => (Err(e), last),
                    Ok(typed_rest) => (Ok(seq![typed] + typed_rest), last),
                }
            },
        }
    }
}

/// Type checking of one statement, and the state after it (or where it failed).
pub open spec fn check_statement_spec(state: CheckState, statement: SpecStatement) -> (
    Result<SpecTypedStatement, SemanticError>,
    CheckState,
)
    decreases statement,
{
    match statement {
        SpecStatement::Let { name, value } => if lookup(state.scope, name@) is Some {
            (Err(SemanticError::DuplicateBinding(name)), state)
        } else {
            match check_expr_spec(state.scope, value) {
                Err(e) => (Err(e), state),
                Ok(typed) => {
                    let symbol = Symbol::make(state.next_id as SymbolId, name, typed.spec_ty());
                    (
                        Ok(SpecTypedStatement::Let { symbol, value: typed }),
                        CheckState {
                            scope: state.scope.push(symbol),
                            symbols: state.symbols.push(symbol),
                            next_id: state.next_id + 1,
                        },
                    )
                },
            }
        },
        SpecStatement::Assign { name, value } => match lookup(state.scope, name@) {
            None => (Err(SemanticError::UndefinedIdentifier(name)), state),
            Some(symbol) => match check_expr_spec(state.scope, value) {
                Err(e) => (Err(e), state),
                Ok(typed) => if typed.spec_ty() != symbol.spec_ty() {
                    (Err(SemanticError::MismatchedAssignment(name)), state)
                } else {
                    (Ok(SpecTypedStatement::Assign { symbol, value: typed }), state)
                },
            },
        },
        SpecStatement::Return(value) => match check_expr_spec(state.scope, value) {
            Err(e) => (Err(e), state),
            Ok(typed) => (Ok(SpecTypedStatement::Return { value: typed }), state),
        },
        SpecStatement::If { condition, then_branch, else_branch } => match check_expr_spec(
            state.scope,
            condition,
        ) {
            Err(e) => (Err(e), state),
            Ok(typed_condition) => if typed_condition.spec_ty() != Type::Bool {
                (Err(SemanticError::NonBooleanCondition), state)
            } else {
                let (then_result, after_then) = check_block_spec(state, then_branch);
                match then_result {
                    Err(e) => (Err(e), after_then),
                    Ok(typed_then) => {
                        let between = CheckState {
                            scope: state.scope,
                            symbols: after_then.symbols,
                            next_id: after_then.next_id,
                        };
                        let (else_result, after_else) = check_block_spec(between, else_branch);
                        match else_result {
                            Err(e) => (Err(e), after_else),
                            Ok(typed_else) => (
                                Ok(
                                    SpecTypedStatement::If {
                                        condition: typed_condition,
                                        then_branch: typed_then,
                                        else_branch: typed_else,
                                    },
                                ),
                                CheckState {
                                    scope: state.scope,
                                    symbols: after_else.symbols,
                                    next_id: after_else.next_id,
                                },
                            ),
                        }
                    },
                }
            },
        },
    }
}

/// Whether every path through a block ends in a `return`.
pub open spec fn block_returns_spec(statements: Seq<SpecStatement>) -> bool
    decreases statements,
{
    if statements.len() == 0 {
        false
    } else {
        statement_returns_spec(statements[0]) || block_returns_spec(
            statements.subrange(1, statements.len() as int),
        )
    }
}

pub open spec fn statement_returns_spec(statement: SpecStatement) -> bool
    decreases statement,
{
    match statement {
        SpecStatement::Return(_) => true,
        SpecStatement::If { then_branch, else_branch, .. } => block_returns_spec(then_branch)
            && block_returns_spec(else_branch),
        _ => false,
    }
}

/// The number of `let` statements in a block, nested ones included.
pub open spec fn let_count(statements: Seq<SpecStatement>) -> nat
    decreases statements,
{
    if statements.len() == 0 {
        0
    } else {
        let here: nat = match statements[0] {
            SpecStatement::Let { .. } => 1,
            SpecStatement::If { then_branch, else_branch, .. } => let_count(then_branch)
                + let_count(else_branch),
            _ => 0,
        };
        here + let_count(statements.subrange(1, statements.len() as int))
    }
}

/// Checks a whole program: its typed statements and all symbols bound so far, or the first
/// error; and the state after checking.
pub open spec fn check_spec(state: CheckState, statements: Seq<SpecStatement>) -> (
    Result<(Seq<SpecTypedStatement>, Seq<Symbol>), SemanticError>,
    CheckState,
) {
    let (r, after) = check_block_spec(state, statements);
    match r {
        Err(e) => (Err(e), after),
        Ok(typed) => if !block_returns_spec(statements) {
            (Err(SemanticError::MissingReturn), after)
        } else {
            (Ok((typed, after.symbols)), after)
        },
    }
}

/// Whether the symbols bound so far are numbered by their position, the next id following them.
pub open spec fn symbols_numbered(state: CheckState) -> bool {
    &&& state.next_id == state.symbols.len()
    &&& forall|i: int| 0 <= i < state.symbols.len() ==> #[trigger] state.symbols[i].spec_id() == i as SymbolId
}

proof fn lemma_block_numbered(state: CheckState, statements: Seq<SpecStatement>)
    requires
        symbols_numbered(state),
    ensures
        symbols_numbered(check_block_spec(state, statements).1),
    decreases statements, 1nat,
{
    if statements.len() > 0 {
        let rest = statements.subrange(1, statements.len() as int);
        lemma_statement_numbered(state, statements[0]);
        let (first, after) = check_statement_spec(state, statements[0]);
        if first is Ok {
            lemma_block_numbered(after, rest);
        }
    }
}

proof fn lemma_statement_numbered(state: CheckState, statement: SpecStatement)
    requires
        symbols_numbered(state),
    ensures
        symbols_numbered(check_statement_spec(state, statement).1),
    decreases statement, 0nat,
{
    match statement {
        SpecStatement::Let { name, value } => {
            let after = check_statement_spec(state, statement).1;
            if after != state {
                let symbols = after.symbols;
                assert forall|i: int| 0 <= i < symbols.len() implies #[trigger] symbols[i].spec_id() == i as SymbolId by {
                    if i < state.symbols.len() {
                        assert(symbols[i] == state.symbols[i]);
                    }
                }
            }
        },
        SpecStatement::If { condition, then_branch, else_branch } => {
            lemma_block_numbered(state, then_branch);
            let after_then = check_block_spec(state, then_branch).1;
            let between = CheckState { scope: state.scope, symbols: after_then.symbols, next_id: after_then.next_id };
            lemma_block_numbered(between, else_branch);
        },
        _ => {},
    }
}

/// The type checker gives the symbols it binds consecutive ids in the order it binds them, in
/// source order: starting from numbered symbols (as a fresh checker does), the `k`-th symbol of
/// the result has the id `k`.
pub proof fn lemma_checker_numbers_symbols(state: CheckState, statements: Seq<SpecStatement>)
    requires
        symbols_numbered(state),
    ensures
        symbols_numbered(check_spec(state, statements).1),
        check_spec(state, statements).0 matches Ok((_, symbols)) ==> forall|i: int|
            0 <= i < symbols.len() ==> #[trigger] symbols[i].spec_id() == i as SymbolId,
{
    lemma_block_numbered(state, statements);
}

/// The names bound by the `let` statements of a block, in source order, those of a `then`
/// branch before those of its `else` branch.
pub open spec fn let_names(statements: Seq<SpecStatement>) -> Seq<String>
    decreases statements,
{
    if statements.len() == 0 {
        Seq::empty()
    } else {
        let here: Seq<String> = match statements[0] {
            SpecStatement::Let { name, .. } => seq![name],
            SpecStatement::If { then_branch, else_branch, .. } => let_names(then_branch) + let_names(
                else_branch,
            ),
            _ => Seq::empty(),
        };
        here + let_names(statements.subrange(1, statements.len() as int))
    }
}

/// The names of a sequence of symbols.
pub open spec fn symbol_names(symbols: Seq<Symbol>) -> Seq<String> {
    symbols.map_values(|symbol: Symbol| symbol.spec_name())
}

proof fn lemma_symbol_names_push(symbols: Seq<Symbol>, symbol: Symbol)
    ensures
        symbol_names(symbols.push(symbol)) == symbol_names(symbols) + seq![symbol.spec_name()],
{
    assert(symbol_names(symbols.push(symbol)) =~= symbol_names(symbols) + seq![symbol.spec_name()]);
}

proof fn lemma_block_binds_let_names(state: CheckState, statements: Seq<SpecStatement>)
    ensures
        check_block_spec(state, statements).0 is Ok ==> symbol_names(
            check_block_spec(state, statements).1.symbols,
        ) == symbol_names(state.symbols) + let_names(statements),
        check_block_spec(state, statements).0 != Err::<Seq<SpecTypedStatement>, SemanticError>(
            SemanticError::MissingReturn,
        ),
        let_names(statements).len() == let_count(statements),
    decreases statements, 1nat,
{
    if statements.len() == 0 {
        assert(symbol_names(state.symbols) + let_names(statements) =~= symbol_names(state.symbols));
    } else {
        let rest = statements.subrange(1, statements.len() as int);
        lemma_statement_binds_let_names(state, statements[0]);
        let (first, after) = check_statement_spec(state, statements[0]);
        lemma_block_binds_let_names(after, rest);
        let here: Seq<String> = match statements[0] {
            SpecStatement::Let { name, .. } => seq![name],
            SpecStatement::If { then_branch, else_branch, .. } => let_names(then_branch) + let_names(
                else_branch,
            ),
            _ => Seq::empty(),
        };
        assert(let_names(statements) == here + let_names(rest));
        let single = seq![statements[0]];
        assert(single.subrange(1, 1) =~= Seq::<SpecStatement>::empty());
        assert(let_names(Seq::<SpecStatement>::empty()) =~= Seq::<String>::empty());
        assert(let_names(single) =~= here);
        lemma_let_count_first(statements);
        if first is Ok && check_block_spec(after, rest).0 is Ok {
            assert(symbol_names(state.symbols) + let_names(statements) =~= symbol_names(
                state.symbols,
            ) + here + let_names(rest));
        }
    }
}

proof fn lemma_expr_errors(scope: Seq<Symbol>, expr: Expr)
    ensures
        check_expr_spec(scope, expr) != Err::<TypedExpr, SemanticError>(SemanticError::MissingReturn),
    decreases expr,
{
    if let Expr::Binary { left, op, right } = expr {
        lemma_expr_errors(scope, *left);
        lemma_expr_errors(scope, *right);
    }
}

proof fn lemma_statement_binds_let_names(state: CheckState, statement: SpecStatement)
    ensures
        check_statement_spec(state, statement).0 is Ok ==> symbol_names(
            check_statement_spec(state, statement).1.symbols,
        ) == symbol_names(state.symbols) + let_names(seq![statement]),
        check_statement_spec(state, statement).0 != Err::<SpecTypedStatement, SemanticError>(
            SemanticError::MissingReturn,
        ),
        let_names(seq![statement]).len() == statement_let_count(statement),
    decreases statement, 0nat,
{
    let single = seq![statement];
    assert(single.subrange(1, 1) =~= Seq::<SpecStatement>::empty());
    assert(let_names(Seq::<SpecStatement>::empty()) =~= Seq::<String>::empty());
    match statement {
        SpecStatement::Let { name, value } => {
            lemma_expr_errors(state.scope, value);
            assert(let_names(single) =~= seq![name]);
            let after = check_statement_spec(state, statement).1;
            if check_statement_spec(state, statement).0 is Ok {
                let symbol = after.symbols.last();
                assert(after.symbols == state.symbols.push(symbol));
                lemma_symbol_names_push(state.symbols, symbol);
            }
        },
        SpecStatement::If { condition, then_branch, else_branch } => {
            lemma_expr_errors(state.scope, condition);
            assert(let_names(single) =~= let_names(then_branch) + let_names(else_branch));
            lemma_block_binds_let_names(state, then_branch);
            let after_then = check_block_spec(state, then_branch).1;
            let between = CheckState {
                scope: state.scope,
                symbols: after_then.symbols,
                next_id: after_then.next_id,
            };
            lemma_block_binds_let_names(between, else_branch);
            if check_statement_spec(state, statement).0 is Ok {
                assert(symbol_names(state.symbols) + let_names(single) =~= symbol_names(
                    state.symbols,
                ) + let_names(then_branch) + let_names(else_branch));
            }
        },
        SpecStatement::Assign { name, value } => {
            lemma_expr_errors(state.scope, value);
            assert(let_names(single) =~= Seq::<String>::empty());
            assert(symbol_names(state.symbols) + let_names(single) =~= symbol_names(state.symbols));
        },
        SpecStatement::Return(value) => {
            lemma_expr_errors(state.scope, value);
            assert(let_names(single) =~= Seq::<String>::empty());
            assert(symbol_names(state.symbols) + let_names(single) =~= symbol_names(state.symbols));
        },
    }
}

/// What checking a program with a fresh checker yields: `MissingReturn` exactly when no other
/// error comes first and some path through the program does not return; and on success one
/// symbol per `let`, in source order (a `then` branch before its `else` branch), the `k`-th
/// with the id `k`.
pub proof fn lemma_check_outcome(statements: Seq<SpecStatement>)
    ensures
        ({
            let fresh = CheckState { scope: Seq::empty(), symbols: Seq::empty(), next_id: 0 };
            &&& (check_spec(fresh, statements).0 == Err::<(Seq<SpecTypedStatement>, Seq<Symbol>), SemanticError>(
                SemanticError::MissingReturn,
            )) == (check_block_spec(fresh, statements).0 is Ok && !block_returns_spec(statements))
            &&& check_spec(fresh, statements).0 matches Ok((_, symbols)) ==> {
                &&& symbols.len() == let_count(statements)
                &&& forall|i: int|
                    0 <= i < symbols.len() ==> #[trigger] symbols[i].spec_id() == i as SymbolId
                        && symbols[i].spec_name() == let_names(statements)[i]
            }
        }),
{
    let fresh = CheckState { scope: Seq::empty(), symbols: Seq::empty(), next_id: 0 };
    lemma_block_binds_let_names(fresh, statements);
    lemma_block_numbered(fresh, statements);
    assert(symbol_names(fresh.symbols) =~= Seq::<String>::empty());
    assert(Seq::<String>::empty() + let_names(statements) =~= let_names(statements));
    if let Ok((_, symbols)) = check_spec(fresh, statements).0 {
        assert forall|i: int| 0 <= i < symbols.len() implies #[trigger] symbols[i].spec_id()
            == i as SymbolId && symbols[i].spec_name() == let_names(statements)[i] by {
            assert(symbol_names(symbols)[i] == symbols[i].spec_name());
        }
    }
}

/// The statement views of a block, from position `i` on.
pub open spec fn suffix(statements: Seq<SpecStatement>, i: int) -> Seq<SpecStatement> {
    statements.subrange(i, statements.len() as int)
}

proof fn lemma_suffix_step(statements: Seq<SpecStatement>, i: int)
    requires
        0 <= i < statements.len(),
    ensures
        suffix(statements, i).len() > 0,
        suffix(statements, i)[0] == statements[i],
        suffix(statements, i).subrange(1, suffix(statements, i).len() as int) == suffix(
            statements,
            i + 1,
        ),
{
    assert(suffix(statements, i).subrange(1, suffix(statements, i).len() as int) =~= suffix(
        statements,
        i + 1,
    ));
}

proof fn lemma_let_count_split(statements: Seq<SpecStatement>)
    requires
        statements.len() > 0,
    ensures
        let_count(statements) == let_count(seq![statements[0]]) + let_count(
            statements.subrange(1, statements.len() as int),
        ),
{
    let single = seq![statements[0]];
    assert(single.subrange(1, 1) =~= Seq::<SpecStatement>::empty());
    assert(let_count(Seq::<SpecStatement>::empty()) == 0);
    assert(single[0] == statements[0]);
    assert(let_count(single) == let_count(single) - let_count(single.subrange(1, 1)) + 0);
}

/// Checking never binds more symbols than the block has `let` statements, and restores the
/// visible bindings of a block that checks successfully to an extension of the outer ones.
proof fn lemma_check_block_bounds(state: CheckState, statements: Seq<SpecStatement>)
    ensures
        state.next_id <= check_block_spec(state, statements).1.next_id <= state.next_id + let_count(
            statements,
        ),
        check_block_spec(state, statements).0 is Ok ==> {
            let after = check_block_spec(state, statements).1;
            &&& after.scope.len() >= state.scope.len()
            &&& after.scope.subrange(0, state.scope.len() as int) == state.scope
        },
    decreases statements,
{
    if statements.len() > 0 {
        let rest = statements.subrange(1, statements.len() as int);
        lemma_let_count_split(statements);
        lemma_check_statement_bounds(state, statements[0]);
        let (first, after) = check_statement_spec(state, statements[0]);
        if first is Ok {
            lemma_check_block_bounds(after, rest);
            let last = check_block_spec(after, rest).1;
            if check_block_spec(after, rest).0 is Ok {
                assert(last.scope.subrange(0, state.scope.len() as int) =~= last.scope.subrange(
                    0,
                    after.scope.len() as int,
                ).subrange(0, state.scope.len() as int));
            }
        }
    }
}

proof fn lemma_check_statement_bounds(state: CheckState, statement: SpecStatement)
    ensures
        state.next_id <= check_statement_spec(state, statement).1.next_id <= state.next_id
            + let_count(seq![statement]),
        check_statement_spec(state, statement).0 is Ok ==> {
            let after = check_statement_spec(state, statement).1;
            &&& after.scope.len() >= state.scope.len()
            &&& after.scope.subrange(0, state.scope.len() as int) == state.scope
        },
    decreases statement,
{
    assert(seq![statement].subrange(1, 1) =~= Seq::<SpecStatement>::empty());
    match statement {
        SpecStatement::Let { .. } => {
            assert forall|sym: Symbol| state.scope.push(sym).subrange(0, state.scope.len() as int) =~= state.scope by {}
        },
        SpecStatement::If { condition, then_branch, else_branch } => {
            lemma_check_block_bounds(state, then_branch);
            let after_then = check_block_spec(state, then_branch).1;
            let between = CheckState {
                scope: state.scope,
                symbols: after_then.symbols,
                next_id: after_then.next_id,
            };
            lemma_check_block_bounds(between, else_branch);
            assert(state.scope.subrange(0, state.scope.len() as int) =~= state.scope);
        },
        _ => {
            assert(state.scope.subrange(0, state.scope.len() as int) =~= state.scope);
        },
    }
}

pub open spec fn typed_block_result(r: Result<Vec<TypedStatement>, SemanticError>) -> Result<
    Seq<SpecTypedStatement>,
    SemanticError,
> {
    match r {
        Ok(v) => Ok(typed_statements_view(v@)),
        Err(e) => Err(e),
    }
}

pub open spec fn typed_program_result(r: Result<TypedProgram, SemanticError>) -> Result<
    (Seq<SpecTypedStatement>, Seq<Symbol>),
    SemanticError,
> {
    match r {
        Ok(p) => Ok((p.spec_statements(), p.spec_symbols())),
        Err(e) => Err(e),
    }
}

/// Semantic analysis: name resolution, type inference and checking.
pub struct TypeChecker {
    scope: Vec<Symbol>,
    symbols: Vec<Symbol>,
    next_symbol_id: SymbolId,
}

impl Default for TypeChecker {
    fn default() -> (checker: Self)
        ensures
            checker.state() == (CheckState { scope: Seq::empty(), symbols: Seq::empty(), next_id: 0 }),
    {
        Self::new()
    }
}

impl TypeChecker {
    /// The checker's state: visible bindings, all symbols bound so far, and the next id.
    pub closed spec fn state(self) -> CheckState {
        CheckState {
            scope: self.scope@,
            symbols: self.symbols@,
            next_id: self.next_symbol_id as int,
        }
    }

    pub fn new() -> (checker: Self)
        ensures
            checker.state() == (CheckState {
                scope: Seq::empty(),
                symbols: Seq::empty(),
                next_id: 0,
            }),
    {
        Self { scope: Vec::new(), symbols: Vec::new(), next_symbol_id: 0 }
    }

    /// Whether checking `program` keeps every symbol id within range: the ids this checker has
    /// handed out plus one per `let` of the program fit in a `u32`.
    pub fn can_check(&self, program: &Program) -> (ok: bool)
        ensures
            ok == (self.state().next_id + let_count(statements_view(program.statements@))
                <= u32::MAX),
    {
        let budget: u64 = (u32::MAX - self.next_symbol_id) as u64;
        proof {
            let view = statements_view(program.statements@);
            assert(view.subrange(0, program.statements@.len() as int) =~= view);
        }
        lets_within(&program.statements, 0, budget).is_some()
    }

    /// Checks a program: resolves every name, types every expression, and requires that every
    /// path returns. Symbol ids continue from those this checker has already handed out.
    pub fn check(&mut self, program: &Program) -> (result: Result<TypedProgram, SemanticError>)
        requires
            old(self).state().next_id + let_count(statements_view(program.statements@))
                <= u32::MAX,
        ensures
            (typed_program_result(result), final(self).state()) == check_spec(
                old(self).state(),
                statements_view(program.statements@),
            ),
    {
        let statements = self.check_block(&program.statements)?;
        if !block_returns(&program.statements) {
            return Err(SemanticError::MissingReturn);
        }
        let symbols = copy_symbols(&self.symbols);
        Ok(TypedProgram { statements, symbols })
    }

    fn check_block(&mut self, statements: &Vec<Statement>) -> (result: Result<
        Vec<TypedStatement>,
        SemanticError,
    >)
        requires
            old(self).state().next_id + let_count(statements_view(statements@)) <= u32::MAX,
        ensures
            (typed_block_result(result), final(self).state()) == check_block_spec(
                old(self).state(),
                statements_view(statements@),
            ),
        decreases statements_view(statements@),
    {
        let ghost view = statements_view(statements@);
        let ghost start = self.state();
        let mut typed: Vec<TypedStatement> = Vec::new();
        let mut failure: Option<SemanticError> = None;
        let mut i: usize = 0;
        proof {
            assert(suffix(view, 0) =~= view);
            assert(typed_statements_view(typed@) =~= Seq::<SpecTypedStatement>::empty());
        }
        while i < statements.len()
            invariant_except_break
                view == statements_view(statements@),
                0 <= i <= statements.len(),
                failure is None,
                self.state().next_id + let_count(suffix(view, i as int)) <= u32::MAX,
                ({
                    let (r, f) = check_block_spec(self.state(), suffix(view, i as int));
                    check_block_spec(start, view) == (
                        match r {
                            Ok(ts) => Ok(typed_statements_view(typed@) + ts),
                            Err(e) => Err(e),
                        },
                        f,
                    )
                }),
            ensures
                i <= statements.len(),
                failure is None ==> i == statements.len(),
                check_block_spec(start, view).1 == self.state(),
                failure matches Some(e) ==> check_block_spec(start, view).0 == Err::<
                    Seq<SpecTypedStatement>,
                    SemanticError,
                >(e),
                failure is None ==> check_block_spec(start, view).0 == Ok::<
                    Seq<SpecTypedStatement>,
                    SemanticError,
                >(typed_statements_view(typed@)),
            decreases statements.len() - i,
        {
            proof {
                lemma_suffix_step(view, i as int);
                lemma_let_count_split(suffix(view, i as int));
                assert(view[i as int] == statements@[i as int]@);
                lemma_check_statement_bounds(self.state(), view[i as int]);
            }
            let ghost before = self.state();
            let ghost old_typed = typed@;
            proof {
                assert(decreases_to!(view => view[i as int]));
            }
            let checked = self.check_statement(&statements[i]);
            match checked {
                Err(e) => {
                    failure = Some(e);
                    break;
                },
                Ok(t) => {
                    typed.push(t);
                    proof {
                        assert(typed_statements_view(typed@) =~= typed_statements_view(old_typed)
                            + seq![typed@.last()@]);
                        let (rest, f) = check_block_spec(self.state(), suffix(view, i + 1));
                        match rest {
                            Ok(ts) => {
                                assert(typed_statements_view(old_typed) + (seq![typed@.last()@]
                                    + ts) =~= typed_statements_view(typed@) + ts);
                            },
                            Err(_) => {},
                        }
                    }
                },
            }
            i = i + 1;
        }
        proof {
            if failure is None {
                assert(suffix(view, i as int) =~= Seq::<SpecStatement>::empty());
                assert(typed_statements_view(typed@) + Seq::<SpecTypedStatement>::empty()
                    =~= typed_statements_view(typed@));
            }
        }
        match failure {
            Some(e) => Err(e),
            None => Ok(typed),
        }
    }

    fn check_statement(&mut self, statement: &Statement) -> (result: Result<
        TypedStatement,
        SemanticError,
    >)
        requires
            old(self).state().next_id + let_count(seq![statement@]) <= u32::MAX,
        ensures
            (
                match result {
                    Ok(t) => Ok(t@),
                    Err(e) => Err(e),
                },
                final(self).state(),
            ) == check_statement_spec(old(self).state(), statement@),
        decreases statement@,
    {
        proof {
            let single = seq![statement@];
            assert(single.subrange(1, 1) =~= Seq::<SpecStatement>::empty());
            assert(let_count(Seq::<SpecStatement>::empty()) == 0);
        }
        match statement {
            Statement::Let { name, value } => {
                if self.find(name).is_some() {
                    return Err(SemanticError::DuplicateBinding(name.clone()));
                }
                let value = self.check_expr(value)?;
                let symbol = Symbol { id: self.next_symbol_id, name: name.clone(), ty: value.ty() };
                self.next_symbol_id = self.next_symbol_id + 1;
                self.scope.push(symbol.clone());
                self.symbols.push(symbol.clone());
                Ok(TypedStatement::Let { symbol, value })
            },
            Statement::Assign { name, value } => {
                let found = self.find(name);
                let index = match found {
                    Some(index) => index,
                    None => {
                        return Err(SemanticError::UndefinedIdentifier(name.clone()));
                    },
                };
                let value = self.check_expr(value)?;
                let symbol = self.scope[index].clone();
                if !same_type(value.ty(), symbol.ty) {
                    return Err(SemanticError::MismatchedAssignment(name.clone()));
                }
                Ok(TypedStatement::Assign { symbol, value })
            },
            Statement::Return(value) => {
                let value = self.check_expr(value)?;
                Ok(TypedStatement::Return { value })
            },
            Statement::If { condition, then_branch, else_branch } => {
                let condition = self.check_expr(condition)?;
                if !same_type(condition.ty(), Type::Bool) {
                    return Err(SemanticError::NonBooleanCondition);
                }
                let ghost outer = self.state();
                let outer_len = self.scope.len();
                proof {
                    lemma_check_block_bounds(outer, statements_view(then_branch@));
                }
                proof {
                    assert(decreases_to!(statement@ => statements_view(then_branch@)));
                    assert(decreases_to!(statement@ => statements_view(else_branch@)));
                }
                let then_branch = self.check_block(then_branch)?;
                self.scope.truncate(outer_len);
                proof {
                    assert(self.scope@ =~= outer.scope);
                    lemma_check_block_bounds(self.state(), statements_view(else_branch@));
                }
                let else_branch = self.check_block(else_branch)?;
                self.scope.truncate(outer_len);
                proof {
                    assert(self.scope@ =~= outer.scope);
                }
                Ok(TypedStatement::If { condition, then_branch, else_branch })
            },
        }
    }

    /// The index of the first visible binding of `name`.
    fn find(&self, name: &String) -> (index: Option<usize>)
        ensures
            match index {
                Some(k) => k < self.state().scope.len() && lookup(self.state().scope, name@) == Some(
                    self.state().scope[k as int],
                ),
                None => lookup(self.state().scope, name@) is None,
            },
    {
        let mut k: usize = 0;
        proof {
            assert(self.scope@.subrange(0, self.scope@.len() as int) =~= self.scope@);
        }
        while k < self.scope.len()
            invariant
                0 <= k <= self.scope@.len(),
                lookup(self.scope@, name@) == lookup(
                    self.scope@.subrange(k as int, self.scope@.len() as int),
                    name@,
                ),
            decreases self.scope.len() - k,
        {
            let ghost rest = self.scope@.subrange(k as int, self.scope@.len() as int);
            proof {
                assert(rest[0] == self.scope@[k as int]);
                assert(rest.subrange(1, rest.len() as int) =~= self.scope@.subrange(
                    k + 1,
                    self.scope@.len() as int,
                ));
            }
            if self.scope[k].name == *name {
                return Some(k);
            }
            k = k + 1;
        }
        None
    }

    fn check_expr(&self, expr: &Expr) -> (result: Result<TypedExpr, SemanticError>)
        ensures
            result == check_expr_spec(self.state().scope, *expr),
        decreases expr,
    {
        match expr {
            Expr::Integer(value) => Ok(TypedExpr::Integer { value: *value, ty: Type::I64 }),
            Expr::Boolean(value) => Ok(TypedExpr::Boolean { value: *value, ty: Type::Bool }),
            Expr::Identifier(name) => match self.find(name) {
                Some(k) => {
                    let symbol = &self.scope[k];
                    Ok(
                        TypedExpr::Symbol {
                            symbol_id: symbol.id,
                            name: symbol.name.clone(),
                            ty: symbol.ty,
                        },
                    )
                },
                None => Err(SemanticError::UndefinedIdentifier(name.clone())),
            },
            Expr::Binary { left, op, right } => {
                let left = self.check_expr(left)?;
                let right = self.check_expr(right)?;
                let ty = binary_result_type(*op, left.ty(), right.ty())?;
                Ok(TypedExpr::Binary { left: Box::new(left), op: *op, right: Box::new(right), ty })
            },
        }
    }
}

fn same_type(a: Type, b: Type) -> (same: bool)
    ensures
        same == (a == b),
{
    match (a, b) {
        (Type::I64, Type::I64) => true,
        (Type::Bool, Type::Bool) => true,
        _ => false,
    }
}

fn binary_result_type(op: BinaryOp, left: Type, right: Type) -> (result: Result<
    Type,
    SemanticError,
>)
    ensures
        result == binary_result_type_spec(op, left, right),
{
    match op {
        BinaryOp::Add | BinaryOp::Subtract | BinaryOp::Multiply | BinaryOp::Divide => {
            if same_type(left, Type::I64) && same_type(right, Type::I64) {
                Ok(Type::I64)
            } else {
                Err(SemanticError::InvalidBinaryOperands)
            }
        },
        BinaryOp::Less | BinaryOp::LessEqual | BinaryOp::Greater | BinaryOp::GreaterEqual => {
            if same_type(left, Type::I64) && same_type(right, Type::I64) {
                Ok(Type::Bool)
            } else {
                Err(SemanticError::InvalidBinaryOperands)
            }
        },
        BinaryOp::Equal | BinaryOp::NotEqual => {
            if same_type(left, right) {
                Ok(Type::Bool)
            } else {
                Err(SemanticError::InvalidBinaryOperands)
            }
        },
    }
}

/// Whether every path through the block ends in a `return`.
fn block_returns(statements: &Vec<Statement>) -> (all_return: bool)
    ensures
        all_return == block_returns_spec(statements_view(statements@)),
    decreases statements_view(statements@),
{
    let ghost view = statements_view(statements@);
    let mut i: usize = 0;
    proof {
        assert(suffix(view, 0) =~= view);
    }
    while i < statements.len()
        invariant
            view == statements_view(statements@),
            0 <= i <= statements.len(),
            block_returns_spec(view) == block_returns_spec(suffix(view, i as int)),
        decreases statements.len() - i,
    {
        proof {
            lemma_suffix_step(view, i as int);
            assert(view[i as int] == statements@[i as int]@);
        }
        let st = &statements[i];
        let ends = match st {
            Statement::Return(_) => true,
            Statement::If { then_branch, else_branch, .. } => {
                proof {
                    assert(decreases_to!(view => view[i as int]));
                    assert(st@ is If);
                    assert(st@->then_branch == statements_view(then_branch@));
                    assert(st@->else_branch == statements_view(else_branch@));
                    assert(decreases_to!(st@ => statements_view(then_branch@)));
                    assert(decreases_to!(st@ => statements_view(else_branch@)));
                }
                block_returns(then_branch) && block_returns(else_branch)
            },
            _ => false,
        };
        assert(ends == statement_returns_spec(view[i as int]));
        if ends {
            return true;
        }
        i = i + 1;
    }
    proof {
        assert(suffix(view, i as int) =~= Seq::<SpecStatement>::empty());
    }
    false
}

fn copy_symbols(symbols: &Vec<Symbol>) -> (copy: Vec<Symbol>)
    ensures
        copy@ == symbols@,
{
    let mut copy: Vec<Symbol> = Vec::new();
    let mut i: usize = 0;
    while i < symbols.len()
        invariant
            0 <= i <= symbols.len(),
            copy@ =~= symbols@.subrange(0, i as int),
        decreases symbols.len() - i,
    {
        copy.push(symbols[i].clone());
        i = i + 1;
    }
    proof {
        assert(copy@ =~= symbols@);
    }
    copy
}

/// The binding rules: a `let` of a name already visible is a duplicate; a new `let` binds the
/// name to a fresh symbol, numbered by the checker's counter and typed as its value, visible from
/// then on; assigning to a name nobody bound is an error, and so is assigning a value of another
/// type; and names bound inside the branches of an `if` are not visible after it.
pub proof fn lemma_binding_rules(state: CheckState, name: String, value: Expr, condition: Expr, then_branch: Seq<SpecStatement>, else_branch: Seq<SpecStatement>)
    ensures
        lookup(state.scope, name@) is Some ==> check_statement_spec(state, SpecStatement::Let { name, value })
            == (Err::<SpecTypedStatement, SemanticError>(SemanticError::DuplicateBinding(name)), state),
        lookup(state.scope, name@) is None && check_expr_spec(state.scope, value) is Ok && 0 <= state.next_id
            <= u32::MAX ==> ({
            let typed = check_expr_spec(state.scope, value).unwrap();
            let (r, after) = check_statement_spec(state, SpecStatement::Let { name, value });
            &&& r is Ok
            &&& r.unwrap() matches SpecTypedStatement::Let { symbol, value: v } && v == typed
                && symbol.spec_id() as int == state.next_id && symbol.spec_name() == name
                && symbol.spec_ty() == typed.spec_ty()
            &&& lookup(after.scope, name@) == Some(r.unwrap()->Let_symbol)
            &&& after.next_id == state.next_id + 1
        }),
        lookup(state.scope, name@) is None ==> check_statement_spec(state, SpecStatement::Assign { name, value })
            == (Err::<SpecTypedStatement, SemanticError>(SemanticError::UndefinedIdentifier(name)), state),
        lookup(state.scope, name@) is Some && check_expr_spec(state.scope, value) is Ok
            && check_expr_spec(state.scope, value).unwrap().spec_ty() != lookup(state.scope, name@).unwrap().spec_ty()
            ==> check_statement_spec(state, SpecStatement::Assign { name, value }).0 == Err::<
            SpecTypedStatement,
            SemanticError,
        >(SemanticError::MismatchedAssignment(name)),
        check_statement_spec(state, SpecStatement::If { condition, then_branch, else_branch }).0 is Ok
            ==> check_statement_spec(state, SpecStatement::If { condition, then_branch, else_branch }).1.scope
            == state.scope,
{
    let (r, after) = check_statement_spec(state, SpecStatement::Let { name, value });
    if lookup(state.scope, name@) is None && check_expr_spec(state.scope, value) is Ok {
        let symbol = r.unwrap()->Let_symbol;
        lemma_lookup_last(state.scope, symbol, name@);
    }
}

/// A name not bound before is found, after binding it, as the new symbol.
proof fn lemma_lookup_last(scope: Seq<Symbol>, symbol: Symbol, name: Seq<char>)
    requires
        lookup(scope, name) is None,
        symbol.spec_name()@ == name,
    ensures
        lookup(scope.push(symbol), name) == Some(symbol),
    decreases scope.len(),
{
    if scope.len() > 0 {
        let rest = scope.subrange(1, scope.len() as int);
        assert(scope.push(symbol).subrange(1, scope.len() + 1 as int) =~= rest.push(symbol));
        assert(scope.push(symbol)[0] == scope[0]);
        lemma_lookup_last(rest, symbol, name);
    }
}

} // verus!
