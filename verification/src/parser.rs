use vstd::prelude::*;

use crate::ast::{statements_view, BinaryOp, Expr, Program, SpecStatement, Statement};
use crate::lexer::Token;

verus! {

/// Errors reported by the parser.
#[derive(Debug, PartialEq)]
pub enum ParseError {
    UnexpectedToken(Token),
    UnexpectedEof,
}

/// The token at `pos`, if there is one.
pub open spec fn token_at(tokens: Seq<Token>, pos: int) -> Option<Token> {
    if 0 <= pos < tokens.len() {
        Some(tokens[pos])
    } else {
        None
    }
}

/// The position after reading one token at `pos` (reading past the end reads nothing).
pub open spec fn after(tokens: Seq<Token>, pos: int) -> int {
    if 0 <= pos < tokens.len() {
        pos + 1
    } else {
        pos
    }
}

/// The binary operator a token stands for, with its precedence: `==`/`!=` bind loosest, then
/// comparisons, then `+`/`-`, then `*`/`/`.
pub open spec fn binary_op_of(t: Token) -> Option<(BinaryOp, u8)> {
    match t {
        Token::EqualEqual => Some((BinaryOp::Equal, 1u8)),
        Token::NotEqual => Some((BinaryOp::NotEqual, 1u8)),
        Token::Less => Some((BinaryOp::Less, 2u8)),
        Token::LessEqual => Some((BinaryOp::LessEqual, 2u8)),
        Token::Greater => Some((BinaryOp::Greater, 2u8)),
        Token::GreaterEqual => Some((BinaryOp::GreaterEqual, 2u8)),
        Token::Plus => Some((BinaryOp::Add, 3u8)),
        Token::Minus => Some((BinaryOp::Subtract, 3u8)),
        Token::Star => Some((BinaryOp::Multiply, 4u8)),
        Token::Slash => Some((BinaryOp::Divide, 4u8)),
        _ => None,
    }
}

/// Reads the token `expected` at `pos`; a different token is read and reported.
pub open spec fn expect_spec(tokens: Seq<Token>, pos: int, expected: Token) -> (
    Result<(), ParseError>,
    int,
) {
    match token_at(tokens, pos) {
        Some(t) => if t == expected {
            (Ok(()), pos + 1)
        } else {
            (Err(ParseError::UnexpectedToken(t)), pos + 1)
        },
        None => (Err(ParseError::UnexpectedEof), pos),
    }
}

/// Whether a recursive step moved forward and stayed within the tokens.
pub open spec fn progressed(tokens: Seq<Token>, from: int, to: int) -> bool {
    from < to <= tokens.len()
}

/// A primary expression at `pos`: a literal, a name, or a parenthesized expression.
pub open spec fn primary_spec(tokens: Seq<Token>, pos: int) -> (Result<Expr, ParseError>, int)
    decreases tokens.len() - pos, 0nat,
{
    match token_at(tokens, pos) {
        Some(Token::Integer(v)) => (Ok(Expr::Integer(v)), pos + 1),
        Some(Token::True) => (Ok(Expr::Boolean(true)), pos + 1),
        Some(Token::False) => (Ok(Expr::Boolean(false)), pos + 1),
        Some(Token::Identifier(name)) => (Ok(Expr::Identifier(name)), pos + 1),
        Some(Token::LeftParen) => {
            let (r, p) = expression_spec(tokens, pos + 1, 0);
            match r {
                Err(e) => (Err(e), p),
                Ok(inner) => {
                    let (c, q) = expect_spec(tokens, p, Token::RightParen);
                    match c {
                        Ok(_) => (Ok(inner), q),
                        Err(e) => (Err(e), q),
                    }
                },
            }
        },
        Some(t) => (Err(ParseError::UnexpectedToken(t)), pos + 1),
        None => (Err(ParseError::UnexpectedEof), pos),
    }
}

/// An expression at `pos` whose binary operators all bind at least as tightly as `min`.
pub open spec fn expression_spec(tokens: Seq<Token>, pos: int, min: u8) -> (
    Result<Expr, ParseError>,
    int,
)
    decreases tokens.len() - pos, 1nat,
{
    let (r, p) = primary_spec(tokens, pos);
    match r {
        Err(e) => (Err(e), p),
        Ok(left) => if progressed(tokens, pos, p) {
            expression_tail_spec(tokens, p, min, left)
        } else {
            (Err(ParseError::UnexpectedEof), p)
        },
    }
}

/// Extends `left` with the operators at `pos` that bind at least as tightly as `min`,
/// grouping operators of equal precedence to the left.
pub open spec fn expression_tail_spec(tokens: Seq<Token>, pos: int, min: u8, left: Expr) -> (
    Result<Expr, ParseError>,
    int,
)
    decreases tokens.len() - pos, 0nat,
{
    match token_at(tokens, pos) {
        None => (Ok(left), pos),
        Some(t) => match binary_op_of(t) {
            None => (Ok(left), pos),
            Some((op, precedence)) => if precedence < min {
                (Ok(left), pos)
            } else {
                let (r, p) = expression_spec(tokens, pos + 1, (precedence + 1) as u8);
                match r {
                    Err(e) => (Err(e), p),
                    Ok(right) => if progressed(tokens, pos, p) {
                        expression_tail_spec(
                            tokens,
                            p,
                            min,
                            Expr::Binary { left: Box::new(left), op, right: Box::new(right) },
                        )
                    } else {
                        (Err(ParseError::UnexpectedEof), p)
                    },
                }
            },
        },
    }
}

/// A statement at `pos`.
pub open spec fn statement_spec(tokens: Seq<Token>, pos: int) -> (
    Result<SpecStatement, ParseError>,
    int,
)
    decreases tokens.len() - pos, 0nat,
{
    match token_at(tokens, pos) {
        Some(Token::Let) => match token_at(tokens, pos + 1) {
            Some(Token::Identifier(name)) => {
                let (c, p) = expect_spec(tokens, pos + 2, Token::Equal);
                match c {
                    Err(e) => (Err(e), p),
                    Ok(_) => {
                        let (r, q) = expression_spec(tokens, p, 0);
                        match r {
                            Err(e) => (Err(e), q),
                            Ok(value) => {
                                let (c2, q2) = expect_spec(tokens, q, Token::Semicolon);
                                match c2 {
                                    Err(e) => (Err(e), q2),
                                    Ok(_) => (Ok(SpecStatement::Let { name, value }), q2),
                                }
                            },
                        }
                    },
                }
            },
            Some(t) => (Err(ParseError::UnexpectedToken(t)), pos + 2),
            None => (Err(ParseError::UnexpectedEof), pos + 1),
        },
        Some(Token::Return) => {
            let (r, q) = expression_spec(tokens, pos + 1, 0);
            match r {
                Err(e) => (Err(e), q),
                Ok(value) => {
                    let (c, q2) = expect_spec(tokens, q, Token::Semicolon);
                    match c {
                        Err(e) => (Err(e), q2),
                        Ok(_) => (Ok(SpecStatement::Return(value)), q2),
                    }
                },
            }
        },
        Some(Token::Identifier(name)) => {
            let (c, p) = expect_spec(tokens, pos + 1, Token::Equal);
            match c {
                Err(e) => (Err(e), p),
                Ok(_) => {
                    let (r, q) = expression_spec(tokens, p, 0);
                    match r {
                        Err(e) => (Err(e), q),
                        Ok(value) => {
                            let (c2, q2) = expect_spec(tokens, q, Token::Semicolon);
                            match c2 {
                                Err(e) => (Err(e), q2),
                                Ok(_) => (Ok(SpecStatement::Assign { name, value }), q2),
                            }
                        },
                    }
                },
            }
        },
        Some(Token::If) => {
            let (r, p) = expression_spec(tokens, pos + 1, 0);
            match r {
                Err(e) => (Err(e), p),
                Ok(condition) => {
                    let (c, q) = expect_spec(tokens, p, Token::LeftBrace);
                    match c {
                        Err(e) => (Err(e), q),
                        Ok(_) => if progressed(tokens, pos, q) {
                            let (t, q2) = block_spec(tokens, q);
                            match t {
                                Err(e) => (Err(e), q2),
                                Ok(then_branch) => match token_at(tokens, q2) {
                                    Some(Token::Else) => {
                                        let (c2, q3) = expect_spec(
                                            tokens,
                                            q2 + 1,
                                            Token::LeftBrace,
                                        );
                                        match c2 {
                                            Err(e) => (Err(e), q3),
                                            Ok(_) => if progressed(tokens, pos, q3) {
                                                let (el, q4) = block_spec(tokens, q3);
                                                match el {
                                                    Err(e) => (Err(e), q4),
                                                    Ok(else_branch) => (
                                                        Ok(
                                                            SpecStatement::If {
                                                                condition,
                                                                then_branch,
                                                                else_branch,
                                                            },
                                                        ),
                                                        q4,
                                                    ),
                                                }
                                            } else {
                                                (Err(ParseError::UnexpectedEof), q3)
                                            },
                                        }
                                    },
                                    _ => (
                                        Ok(
                                            SpecStatement::If {
                                                condition,
                                                then_branch,
                                                else_branch: Seq::empty(),
                                            },
                                        ),
                                        q2,
                                    ),
                                },
                            }
                        } else {
                            (Err(ParseError::UnexpectedEof), q)
                        },
                    }
                },
            }
        },
        Some(t) => (Err(ParseError::UnexpectedToken(t)), pos),
        None => (Err(ParseError::UnexpectedEof), pos),
    }
}

/// The statements of a block at `pos` up to and including its closing brace.
pub open spec fn block_spec(tokens: Seq<Token>, pos: int) -> (
    Result<Seq<SpecStatement>, ParseError>,
    int,
)
    decreases tokens.len() - pos, 1nat,
{
    match token_at(tokens, pos) {
        Some(Token::RightBrace) => (Ok(Seq::empty()), pos + 1),
        _ => {
            let (r, p) = statement_spec(tokens, pos);
            match r {
                Err(e) => (Err(e), p),
                Ok(s) => if progressed(tokens, pos, p) {
                    let (rest, q) = block_spec(tokens, p);
                    match rest {
                        Err(e) => (Err(e), q),
                        Ok(ss) => (Ok(seq![s] + ss), q),
                    }
                } else {
                    (Err(ParseError::UnexpectedEof), p)
                },
            }
        },
    }
}

/// The statements from `pos` up to (not including) `Eof`.
pub open spec fn program_spec(tokens: Seq<Token>, pos: int) -> (
    Result<Seq<SpecStatement>, ParseError>,
    int,
)
    decreases tokens.len() - pos,
{
    match token_at(tokens, pos) {
        Some(Token::Eof) => (Ok(Seq::empty()), pos),
        _ => {
            let (r, p) = statement_spec(tokens, pos);
            match r {
                Err(e) => (Err(e), p),
                Ok(s) => if progressed(tokens, pos, p) {
                    let (rest, q) = program_spec(tokens, p);
                    match rest {
                        Err(e) => (Err(e), q),
                        Ok(ss) => (Ok(seq![s] + ss), q),
                    }
                } else {
                    (Err(ParseError::UnexpectedEof), p)
                },
            }
        },
    }
}

pub open spec fn program_result_view(r: Result<Program, ParseError>) -> Result<
    Seq<SpecStatement>,
    ParseError,
> {
    match r {
        Ok(p) => Ok(statements_view(p.statements@)),
        Err(e) => Err(e),
    }
}

/// Whether `t` is the same token as `expected`, for an `expected` that carries no name.
fn same_token(t: &Token, expected: &Token) -> (same: bool)
    requires
        !(*expected is Identifier),
    ensures
        same == (*t == *expected),
{
    match (t, expected) {
        (Token::Let, Token::Let) => true,
        (Token::Return, Token::Return) => true,
        (Token::If, Token::If) => true,
        (Token::Else, Token::Else) => true,
        (Token::True, Token::True) => true,
        (Token::False, Token::False) => true,
        (Token::Integer(a), Token::Integer(b)) => *a == *b,
        (Token::Plus, Token::Plus) => true,
        (Token::Minus, Token::Minus) => true,
        (Token::Star, Token::Star) => true,
        (Token::Slash, Token::Slash) => true,
        (Token::Equal, Token::Equal) => true,
        (Token::EqualEqual, Token::EqualEqual) => true,
        (Token::NotEqual, Token::NotEqual) => true,
        (Token::Less, Token::Less) => true,
        (Token::LessEqual, Token::LessEqual) => true,
        (Token::Greater, Token::Greater) => true,
        (Token::GreaterEqual, Token::GreaterEqual) => true,
        (Token::Semicolon, Token::Semicolon) => true,
        (Token::LeftParen, Token::LeftParen) => true,
        (Token::RightParen, Token::RightParen) => true,
        (Token::LeftBrace, Token::LeftBrace) => true,
        (Token::RightBrace, Token::RightBrace) => true,
        (Token::Eof, Token::Eof) => true,
        _ => false,
    }
}

/// A recursive-descent parser over a token sequence.
pub struct Parser {
    tokens: Vec<Token>,
    position: usize,
}

impl Parser {
    #[verifier::type_invariant]
    spec fn inv(self) -> bool {
        self.position <= self.tokens@.len()
    }

    /// The tokens being parsed.
    pub closed spec fn tokens(self) -> Seq<Token> {
        self.tokens@
    }

    /// The position of the next token to read.
    pub closed spec fn position(self) -> int {
        self.position as int
    }

    pub fn new(tokens: Vec<Token>) -> (parser: Self)
        ensures
            parser.tokens() == tokens@,
            parser.position() == 0,
    {
        Self { tokens, position: 0 }
    }

    /// Parses statements up to the `Eof` token.
    pub fn parse_program(&mut self) -> (result: Result<Program, ParseError>)
        ensures
            final(self).tokens() == old(self).tokens(),
            old(self).position() <= final(self).position(),
            (program_result_view(result), final(self).position()) == program_spec(
                old(self).tokens(),
                old(self).position(),
            ),
    {
        proof {
            use_type_invariant(&*self);
        }
        let ghost tokens = self.tokens@;
        let ghost start = self.position as int;
        let mut statements: Vec<Statement> = Vec::new();
        let mut failure: Option<ParseError> = None;
        loop
            invariant_except_break
                self.tokens@ == tokens,
                start <= self.position <= tokens.len(),
                failure is None,
                ({
                    let (r, f) = program_spec(tokens, self.position as int);
                    program_spec(tokens, start) == (
                        match r {
                            Ok(ss) => Ok(statements_view(statements@) + ss),
                            Err(e) => Err(e),
                        },
                        f,
                    )
                }),
            ensures
                self.tokens@ == tokens,
                start <= self.position,
                program_spec(tokens, start).1 == self.position as int,
                failure matches Some(e) ==> program_spec(tokens, start).0 == Err::<
                    Seq<SpecStatement>,
                    ParseError,
                >(e),
                failure is None ==> program_spec(tokens, start).0 == Ok::<
                    Seq<SpecStatement>,
                    ParseError,
                >(statements_view(statements@)),
            decreases tokens.len() - self.position,
        {
            let at_end = match self.peek() {
                Some(Token::Eof) => true,
                _ => false,
            };
            if at_end {
                proof {
                    assert(statements_view(statements@) + Seq::<SpecStatement>::empty()
                        =~= statements_view(statements@));
                }
                break;
            }
            let ghost before = self.position as int;
            let ghost old_statements = statements@;
            let parsed = self.parse_statement();
            proof {
                use_type_invariant(&*self);
            }
            match parsed {
                Err(e) => {
                    failure = Some(e);
                    break;
                },
                Ok(statement) => {
                    proof {
                        use_type_invariant(&*self);
                    }
                    statements.push(statement);
                    proof {
                        assert(statements_view(statements@) =~= statements_view(old_statements)
                            + seq![statements@.last()@]);
                        let (rest, f) = program_spec(tokens, self.position as int);
                        match rest {
                            Ok(ss) => {
                                assert(statements_view(old_statements) + (seq![
                                    statements@.last()@,
                                ] + ss) =~= statements_view(statements@) + ss);
                            },
                            Err(_) => {},
                        }
                    }
                },
            }
        }
        match failure {
            Some(e) => Err(e),
            None => Ok(Program { statements }),
        }
    }

    fn parse_statement(&mut self) -> (result: Result<Statement, ParseError>)
        ensures
            final(self).tokens() == old(self).tokens(),
            old(self).position() <= final(self).position(),
            (
                match result {
                    Ok(s) => Ok(s@),
                    Err(e) => Err(e),
                },
                final(self).position(),
            ) == statement_spec(old(self).tokens(), old(self).position()),
            result is Ok ==> progressed(old(self).tokens(), old(self).position(), final(self).position()),
        decreases old(self).tokens().len() - old(self).position(), 1nat,
    {
        proof {
            use_type_invariant(&*self);
        }
        let kind = match self.peek() {
            Some(Token::Let) => 0u8,
            Some(Token::Return) => 1u8,
            Some(Token::Identifier(_)) => 2u8,
            Some(Token::If) => 3u8,
            Some(_) => 4u8,
            None => 5u8,
        };
        if kind == 0 {
            self.parse_let()
        } else if kind == 1 {
            self.parse_return()
        } else if kind == 2 {
            self.parse_assign()
        } else if kind == 3 {
            self.parse_if()
        } else if kind == 4 {
            let token = self.tokens[self.position].clone();
            Err(ParseError::UnexpectedToken(token))
        } else {
            Err(ParseError::UnexpectedEof)
        }
    }

    fn parse_let(&mut self) -> (result: Result<Statement, ParseError>)
        requires
            token_at(old(self).tokens(), old(self).position()) == Some(Token::Let),
        ensures
            final(self).tokens() == old(self).tokens(),
            old(self).position() <= final(self).position(),
            (
                match result {
                    Ok(s) => Ok(s@),
                    Err(e) => Err(e),
                },
                final(self).position(),
            ) == statement_spec(old(self).tokens(), old(self).position()),
            result is Ok ==> progressed(old(self).tokens(), old(self).position(), final(self).position()),
    {
        proof {
            use_type_invariant(&*self);
        }
        self.advance();
        let name = match self.advance() {
            Some(Token::Identifier(name)) => name,
            Some(token) => {
                return Err(ParseError::UnexpectedToken(token));
            },
            None => {
                return Err(ParseError::UnexpectedEof);
            },
        };
        self.expect(Token::Equal)?;
        let value = self.parse_expression(0)?;
        self.expect(Token::Semicolon)?;
        Ok(Statement::Let { name, value })
    }

    fn parse_assign(&mut self) -> (result: Result<Statement, ParseError>)
        requires
            token_at(old(self).tokens(), old(self).position()) matches Some(Token::Identifier(_)),
        ensures
            final(self).tokens() == old(self).tokens(),
            old(self).position() <= final(self).position(),
            (
                match result {
                    Ok(s) => Ok(s@),
                    Err(e) => Err(e),
                },
                final(self).position(),
            ) == statement_spec(old(self).tokens(), old(self).position()),
            result is Ok ==> progressed(old(self).tokens(), old(self).position(), final(self).position()),
    {
        proof {
            use_type_invariant(&*self);
        }
        let name = match self.advance() {
            Some(Token::Identifier(name)) => name,
            _ => {
                return Err(ParseError::UnexpectedEof);
            },
        };
        self.expect(Token::Equal)?;
        let value = self.parse_expression(0)?;
        self.expect(Token::Semicolon)?;
        Ok(Statement::Assign { name, value })
    }

    fn parse_return(&mut self) -> (result: Result<Statement, ParseError>)
        requires
            token_at(old(self).tokens(), old(self).position()) == Some(Token::Return),
        ensures
            final(self).tokens() == old(self).tokens(),
            old(self).position() <= final(self).position(),
            (
                match result {
                    Ok(s) => Ok(s@),
                    Err(e) => Err(e),
                },
                final(self).position(),
            ) == statement_spec(old(self).tokens(), old(self).position()),
            result is Ok ==> progressed(old(self).tokens(), old(self).position(), final(self).position()),
    {
        proof {
            use_type_invariant(&*self);
        }
        self.advance();
        let value = self.parse_expression(0)?;
        self.expect(Token::Semicolon)?;
        Ok(Statement::Return(value))
    }

    fn parse_if(&mut self) -> (result: Result<Statement, ParseError>)
        requires
            token_at(old(self).tokens(), old(self).position()) == Some(Token::If),
        ensures
            final(self).tokens() == old(self).tokens(),
            old(self).position() <= final(self).position(),
            (
                match result {
                    Ok(s) => Ok(s@),
                    Err(e) => Err(e),
                },
                final(self).position(),
            ) == statement_spec(old(self).tokens(), old(self).position()),
            result is Ok ==> progressed(old(self).tokens(), old(self).position(), final(self).position()),
        decreases old(self).tokens().len() - old(self).position(), 0nat,
    {
        proof {
            use_type_invariant(&*self);
        }
        self.advance();
        let condition = self.parse_expression(0)?;
        self.expect(Token::LeftBrace)?;
        let then_branch = self.parse_block()?;
        let has_else = match self.peek() {
            Some(Token::Else) => true,
            _ => false,
        };
        if !has_else {
            let else_branch: Vec<Statement> = Vec::new();
            proof {
                assert(statements_view(else_branch@) =~= Seq::<SpecStatement>::empty());
            }
            return Ok(Statement::If { condition, then_branch, else_branch });
        }
        self.advance();
        self.expect(Token::LeftBrace)?;
        let else_branch = self.parse_block()?;
        Ok(Statement::If { condition, then_branch, else_branch })
    }

    /// Parses the statements of a block up to and including its closing brace.
    fn parse_block(&mut self) -> (result: Result<Vec<Statement>, ParseError>)
        ensures
            final(self).tokens() == old(self).tokens(),
            old(self).position() <= final(self).position(),
            (
                match result {
                    Ok(ss) => Ok(statements_view(ss@)),
                    Err(e) => Err(e),
                },
                final(self).position(),
            ) == block_spec(old(self).tokens(), old(self).position()),
            result is Ok ==> progressed(old(self).tokens(), old(self).position(), final(self).position()),
        decreases old(self).tokens().len() - old(self).position(), 2nat,
    {
        proof {
            use_type_invariant(&*self);
        }
        let ghost tokens = self.tokens@;
        let ghost start = self.position as int;
        let mut statements: Vec<Statement> = Vec::new();
        let mut failure: Option<ParseError> = None;
        loop
            invariant_except_break
                self.tokens@ == tokens,
                tokens == old(self).tokens(),
                start == old(self).position(),
                start <= self.position <= tokens.len(),
                failure is None,
                ({
                    let (r, f) = block_spec(tokens, self.position as int);
                    block_spec(tokens, start) == (
                        match r {
                            Ok(ss) => Ok(statements_view(statements@) + ss),
                            Err(e) => Err(e),
                        },
                        f,
                    )
                }),
            ensures
                self.tokens@ == tokens,
                block_spec(tokens, start).1 == self.position as int,
                failure matches Some(e) ==> block_spec(tokens, start).0 == Err::<
                    Seq<SpecStatement>,
                    ParseError,
                >(e),
                failure is None ==> block_spec(tokens, start).0 == Ok::<
                    Seq<SpecStatement>,
                    ParseError,
                >(statements_view(statements@)),
                failure is None ==> start < self.position,
                start <= self.position <= tokens.len(),
            decreases tokens.len() - self.position,
        {
            let at_close = match self.peek() {
                Some(Token::RightBrace) => true,
                _ => false,
            };
            if at_close {
                self.advance();
                proof {
                    assert(statements_view(statements@) + Seq::<SpecStatement>::empty()
                        =~= statements_view(statements@));
                }
                break;
            }
            let ghost old_statements = statements@;
            let parsed = self.parse_statement();
            proof {
                use_type_invariant(&*self);
            }
            match parsed {
                Err(e) => {
                    failure = Some(e);
                    break;
                },
                Ok(statement) => {
                    proof {
                        use_type_invariant(&*self);
                    }
                    statements.push(statement);
                    proof {
                        assert(statements_view(statements@) =~= statements_view(old_statements)
                            + seq![statements@.last()@]);
                        let (rest, f) = block_spec(tokens, self.position as int);
                        match rest {
                            Ok(ss) => {
                                assert(statements_view(old_statements) + (seq![
                                    statements@.last()@,
                                ] + ss) =~= statements_view(statements@) + ss);
                            },
                            Err(_) => {},
                        }
                    }
                },
            }
        }
        match failure {
            Some(e) => Err(e),
            None => Ok(statements),
        }
    }

    fn parse_expression(&mut self, min_precedence: u8) -> (result: Result<Expr, ParseError>)
        requires
            min_precedence <= 5,
        ensures
            final(self).tokens() == old(self).tokens(),
            old(self).position() <= final(self).position(),
            (result, final(self).position()) == expression_spec(
                old(self).tokens(),
                old(self).position(),
                min_precedence,
            ),
            result is Ok ==> progressed(old(self).tokens(), old(self).position(), final(self).position()),
        decreases old(self).tokens().len() - old(self).position(), 1nat,
    {
        proof {
            use_type_invariant(&*self);
        }
        let ghost tokens = self.tokens@;
        let ghost start = self.position as int;
        let mut left = self.parse_primary()?;
        let mut failure: Option<ParseError> = None;
        loop
            invariant_except_break
                self.tokens@ == tokens,
                tokens == old(self).tokens(),
                start == old(self).position(),
                start < self.position <= tokens.len(),
                min_precedence <= 5,
                failure is None,
                expression_spec(tokens, start, min_precedence) == expression_tail_spec(
                    tokens,
                    self.position as int,
                    min_precedence,
                    left,
                ),
            ensures
                self.tokens@ == tokens,
                start < self.position <= tokens.len(),
                failure matches Some(e) ==> expression_spec(tokens, start, min_precedence) == (
                    Err::<Expr, ParseError>(e),
                    self.position as int,
                ),
                failure is None ==> expression_spec(tokens, start, min_precedence) == (
                    Ok::<Expr, ParseError>(left),
                    self.position as int,
                ),
            decreases tokens.len() - self.position,
        {
            proof {
                use_type_invariant(&*self);
            }
            let next = self.current_binary_op();
            let (op, precedence) = match next {
                Some(pair) => pair,
                None => {
                    break;
                },
            };
            if precedence < min_precedence {
                break;
            }
            self.advance();
            let right = self.parse_expression(precedence + 1);
            proof {
                use_type_invariant(&*self);
            }
            match right {
                Err(e) => {
                    failure = Some(e);
                    break;
                },
                Ok(right) => {
                    left = Expr::Binary { left: Box::new(left), op, right: Box::new(right) };
                },
            }
        }
        match failure {
            Some(e) => Err(e),
            None => Ok(left),
        }
    }

    fn parse_primary(&mut self) -> (result: Result<Expr, ParseError>)
        ensures
            final(self).tokens() == old(self).tokens(),
            old(self).position() <= final(self).position(),
            (result, final(self).position()) == primary_spec(
                old(self).tokens(),
                old(self).position(),
            ),
            result is Ok ==> progressed(old(self).tokens(), old(self).position(), final(self).position()),
        decreases old(self).tokens().len() - old(self).position(), 0nat,
    {
        proof {
            use_type_invariant(&*self);
        }
        match self.advance() {
            Some(Token::Integer(value)) => Ok(Expr::Integer(value)),
            Some(Token::True) => Ok(Expr::Boolean(true)),
            Some(Token::False) => Ok(Expr::Boolean(false)),
            Some(Token::Identifier(name)) => Ok(Expr::Identifier(name)),
            Some(Token::LeftParen) => {
                let expr = self.parse_expression(0)?;
                self.expect(Token::RightParen)?;
                Ok(expr)
            },
            Some(token) => Err(ParseError::UnexpectedToken(token)),
            None => Err(ParseError::UnexpectedEof),
        }
    }

    fn current_binary_op(&self) -> (op: Option<(BinaryOp, u8)>)
        ensures
            op == (match token_at(self.tokens(), self.position()) {
                Some(t) => binary_op_of(t),
                None => None,
            }),
    {
        match self.peek() {
            Some(Token::EqualEqual) => Some((BinaryOp::Equal, 1)),
            Some(Token::NotEqual) => Some((BinaryOp::NotEqual, 1)),
            Some(Token::Less) => Some((BinaryOp::Less, 2)),
            Some(Token::LessEqual) => Some((BinaryOp::LessEqual, 2)),
            Some(Token::Greater) => Some((BinaryOp::Greater, 2)),
            Some(Token::GreaterEqual) => Some((BinaryOp::GreaterEqual, 2)),
            Some(Token::Plus) => Some((BinaryOp::Add, 3)),
            Some(Token::Minus) => Some((BinaryOp::Subtract, 3)),
            Some(Token::Star) => Some((BinaryOp::Multiply, 4)),
            Some(Token::Slash) => Some((BinaryOp::Divide, 4)),
            _ => None,
        }
    }

    fn expect(&mut self, expected: Token) -> (result: Result<(), ParseError>)
        requires
            !(expected is Identifier),
        ensures
            final(self).tokens() == old(self).tokens(),
            old(self).position() <= final(self).position(),
            (result, final(self).position()) == expect_spec(
                old(self).tokens(),
                old(self).position(),
                expected,
            ),
    {
        match self.advance() {
            Some(token) => if same_token(&token, &expected) {
                Ok(())
            } else {
                Err(ParseError::UnexpectedToken(token))
            },
            None => Err(ParseError::UnexpectedEof),
        }
    }

    fn peek(&self) -> (token: Option<&Token>)
        ensures
            match token {
                Some(t) => token_at(self.tokens(), self.position()) == Some(*t),
                None => token_at(self.tokens(), self.position()) is None,
            },
    {
        proof {
            use_type_invariant(self);
        }
        if self.position < self.tokens.len() {
            Some(&self.tokens[self.position])
        } else {
            None
        }
    }

    fn advance(&mut self) -> (token: Option<Token>)
        ensures
            final(self).tokens() == old(self).tokens(),
            old(self).position() <= final(self).position(),
            token == token_at(old(self).tokens(), old(self).position()),
            final(self).position() == after(old(self).tokens(), old(self).position()),
    {
        proof {
            use_type_invariant(&*self);
        }
        if self.position < self.tokens.len() {
            let token = self.tokens[self.position].clone();
            self.position = self.position + 1;
            Some(token)
        } else {
            None
        }
    }
}

} // verus!
