use vstd::prelude::*;

use crate::ast::{BinaryOp, Expr, SpecStatement};
use crate::lexer::{skip_spaces, next_token_spec, ascii_chars, decimal_value, digits_end, ident_end, keyword, token_at, LexError, SpecToken, Token};
use crate::parser::{
    block_spec, expression_spec, expression_tail_spec, primary_spec, program_spec, statement_spec, ParseError,
};

verus! {

/// The expression a single-token operand stands for: a number, a boolean or a name.
pub open spec fn operand_token(t: Token) -> Option<Expr> {
    match t {
        Token::Integer(v) => Some(Expr::Integer(v)),
        Token::True => Some(Expr::Boolean(true)),
        Token::False => Some(Expr::Boolean(false)),
        Token::Identifier(name) => Some(Expr::Identifier(name)),
        _ => None,
    }
}

/// The operator a token writes.
pub open spec fn operator_token(t: Token) -> Option<BinaryOp> {
    match t {
        Token::Star => Some(BinaryOp::Multiply),
        Token::Slash => Some(BinaryOp::Divide),
        Token::Plus => Some(BinaryOp::Add),
        Token::Minus => Some(BinaryOp::Subtract),
        Token::Less => Some(BinaryOp::Less),
        Token::LessEqual => Some(BinaryOp::LessEqual),
        Token::Greater => Some(BinaryOp::Greater),
        Token::GreaterEqual => Some(BinaryOp::GreaterEqual),
        Token::EqualEqual => Some(BinaryOp::Equal),
        Token::NotEqual => Some(BinaryOp::NotEqual),
        _ => None,
    }
}

/// How tightly an operator token binds: `*` and `/` tightest, then `+` and `-`, then the
/// ordering comparisons, then `==` and `!=`.
pub open spec fn binding(t: Token) -> int {
    match t {
        Token::Star | Token::Slash => 4,
        Token::Plus | Token::Minus => 3,
        Token::Less | Token::LessEqual | Token::Greater | Token::GreaterEqual => 2,
        _ => 1,
    }
}

/// The tokens `a o1 b o2 c ;` at `pos`.
pub open spec fn two_operators_at(tokens: Seq<Token>, pos: int, a: Token, o1: Token, b: Token, o2: Token, c: Token) -> bool {
    &&& 0 <= pos
    &&& pos + 6 <= tokens.len()
    &&& tokens[pos] == a
    &&& tokens[pos + 1] == o1
    &&& tokens[pos + 2] == b
    &&& tokens[pos + 3] == o2
    &&& tokens[pos + 4] == c
    &&& tokens[pos + 5] == Token::Semicolon
}

/// How `a o1 b o2 c` groups: around the tighter operator, and to the left between operators that
/// bind equally tightly.
pub open spec fn grouped(a: Expr, op1: BinaryOp, b: Expr, op2: BinaryOp, c: Expr, right_first: bool) -> Expr {
    if right_first {
        Expr::Binary {
            left: Box::new(a),
            op: op1,
            right: Box::new(Expr::Binary { left: Box::new(b), op: op2, right: Box::new(c) }),
        }
    } else {
        Expr::Binary {
            left: Box::new(Expr::Binary { left: Box::new(a), op: op1, right: Box::new(b) }),
            op: op2,
            right: Box::new(c),
        }
    }
}

/// Operator precedence in the parser: in `a o1 b o2 c` (single-token operands, then `;`), the
/// second operator takes `b` as its left operand exactly when it binds more tightly than the first;
/// otherwise the first operation is formed first. So `a + b / c` is `a + (b / c)`, `a / b + c` is
/// `(a / b) + c`, `a - b - c` is `(a - b) - c`, and `a != b + c` is `a != (b + c)`.
pub proof fn lemma_precedence(tokens: Seq<Token>, pos: int, a: Token, o1: Token, b: Token, o2: Token, c: Token)
    requires
        two_operators_at(tokens, pos, a, o1, b, o2, c),
        operand_token(a) is Some,
        operand_token(b) is Some,
        operand_token(c) is Some,
        operator_token(o1) is Some,
        operator_token(o2) is Some,
    ensures
        expression_spec(tokens, pos, 0) == (
            Ok::<Expr, ParseError>(
                grouped(
                    operand_token(a).unwrap(),
                    operator_token(o1).unwrap(),
                    operand_token(b).unwrap(),
                    operator_token(o2).unwrap(),
                    operand_token(c).unwrap(),
                    binding(o2) > binding(o1),
                ),
            ),
            pos + 5,
        ),
{
    let ea = operand_token(a).unwrap();
    let eb = operand_token(b).unwrap();
    let ec = operand_token(c).unwrap();
    let op1 = operator_token(o1).unwrap();
    let op2 = operator_token(o2).unwrap();
    let p1 = binding(o1) as u8;
    let p2 = binding(o2) as u8;
    assert(crate::parser::binary_op_of(o1) == Some((op1, p1)));
    assert(crate::parser::binary_op_of(o2) == Some((op2, p2)));
    assert(crate::parser::binary_op_of(Token::Semicolon) is None);
    assert(primary_spec(tokens, pos) == (Ok::<Expr, ParseError>(ea), pos + 1));
    assert(primary_spec(tokens, pos + 2) == (Ok::<Expr, ParseError>(eb), pos + 3));
    assert(primary_spec(tokens, pos + 4) == (Ok::<Expr, ParseError>(ec), pos + 5));
    let q = (p2 + 1) as u8;
    assert(expression_tail_spec(tokens, pos + 5, q, ec) == (Ok::<Expr, ParseError>(ec), pos + 5));
    assert(expression_spec(tokens, pos + 4, q) == (Ok::<Expr, ParseError>(ec), pos + 5));
    let inner_min = (p1 + 1) as u8;
    let both = Expr::Binary { left: Box::new(eb), op: op2, right: Box::new(ec) };
    let first = Expr::Binary { left: Box::new(ea), op: op1, right: Box::new(eb) };
    if p2 > p1 {
        assert(expression_tail_spec(tokens, pos + 5, inner_min, both) == (Ok::<Expr, ParseError>(both), pos + 5));
        assert(expression_tail_spec(tokens, pos + 3, inner_min, eb) == (Ok::<Expr, ParseError>(both), pos + 5));
        assert(expression_spec(tokens, pos + 2, inner_min) == (Ok::<Expr, ParseError>(both), pos + 5));
        let whole = Expr::Binary { left: Box::new(ea), op: op1, right: Box::new(both) };
        assert(expression_tail_spec(tokens, pos + 5, 0, whole) == (Ok::<Expr, ParseError>(whole), pos + 5));
        assert(expression_tail_spec(tokens, pos + 1, 0, ea) == (Ok::<Expr, ParseError>(whole), pos + 5));
    } else {
        assert(expression_tail_spec(tokens, pos + 3, inner_min, eb) == (Ok::<Expr, ParseError>(eb), pos + 3));
        assert(expression_spec(tokens, pos + 2, inner_min) == (Ok::<Expr, ParseError>(eb), pos + 3));
        let whole = Expr::Binary { left: Box::new(first), op: op2, right: Box::new(ec) };
        assert(expression_tail_spec(tokens, pos + 5, 0, whole) == (Ok::<Expr, ParseError>(whole), pos + 5));
        assert(expression_tail_spec(tokens, pos + 3, 0, first) == (Ok::<Expr, ParseError>(whole), pos + 5));
        assert(expression_tail_spec(tokens, pos + 1, 0, ea) == (Ok::<Expr, ParseError>(whole), pos + 5));
    }
}

/// A program `return a o1 b o2 c;` parses to one return of the expression grouped by precedence:
/// `return 1 + 6 / 2;` returns `1 + (6 / 2)`.
pub proof fn lemma_return_precedence(a: Token, o1: Token, b: Token, o2: Token, c: Token)
    requires
        operand_token(a) is Some,
        operand_token(b) is Some,
        operand_token(c) is Some,
        operator_token(o1) is Some,
        operator_token(o2) is Some,
    ensures
        program_spec(seq![Token::Return, a, o1, b, o2, c, Token::Semicolon, Token::Eof], 0).0 == Ok::<
            Seq<SpecStatement>,
            ParseError,
        >(
            seq![
                SpecStatement::Return(
                    grouped(
                        operand_token(a).unwrap(),
                        operator_token(o1).unwrap(),
                        operand_token(b).unwrap(),
                        operator_token(o2).unwrap(),
                        operand_token(c).unwrap(),
                        binding(o2) > binding(o1),
                    ),
                ),
            ],
        ),
{
    let tokens = seq![Token::Return, a, o1, b, o2, c, Token::Semicolon, Token::Eof];
    lemma_precedence(tokens, 1, a, o1, b, o2, c);
    let e = grouped(
        operand_token(a).unwrap(),
        operator_token(o1).unwrap(),
        operand_token(b).unwrap(),
        operator_token(o2).unwrap(),
        operand_token(c).unwrap(),
        binding(o2) > binding(o1),
    );
    assert(statement_spec(tokens, 0) == (Ok::<SpecStatement, ParseError>(SpecStatement::Return(e)), 7int));
    assert(program_spec(tokens, 7) == (Ok::<Seq<SpecStatement>, ParseError>(Seq::empty()), 7int));
    assert(seq![SpecStatement::Return(e)] + Seq::<SpecStatement>::empty() =~= seq![SpecStatement::Return(e)]);
}

/// Whether a byte is an ASCII letter or an underscore.
pub open spec fn letter_or_underscore(b: u8) -> bool {
    (97u8 <= b && b <= 122u8) || (65u8 <= b && b <= 90u8) || b == 95u8
}

/// Whether a byte is an ASCII decimal digit.
pub open spec fn decimal_digit(b: u8) -> bool {
    48u8 <= b && b <= 57u8
}

/// Whether a byte can continue a word: a letter, a digit or an underscore.
pub open spec fn word_byte(b: u8) -> bool {
    letter_or_underscore(b) || decimal_digit(b)
}

proof fn lemma_ident_run(input: Seq<u8>, p: int)
    requires
        0 <= p <= input.len(),
    ensures
        p <= ident_end(input, p) <= input.len(),
        forall|i: int| p <= i < ident_end(input, p) ==> word_byte(#[trigger] input[i]),
        ident_end(input, p) == input.len() || !word_byte(input[ident_end(input, p)]),
    decreases input.len() - p,
{
    if p < input.len() && crate::lexer::is_ident_char(input[p]) {
        lemma_ident_run(input, p + 1);
    }
}

proof fn lemma_digit_run(input: Seq<u8>, p: int)
    requires
        0 <= p <= input.len(),
    ensures
        p <= digits_end(input, p) <= input.len(),
        forall|i: int| p <= i < digits_end(input, p) ==> decimal_digit(#[trigger] input[i]),
        digits_end(input, p) == input.len() || !decimal_digit(input[digits_end(input, p)]),
    decreases input.len() - p,
{
    if p < input.len() && crate::lexer::is_digit(input[p]) {
        lemma_digit_run(input, p + 1);
    }
}

/// A word starting with a letter or an underscore is lexed whole: the token takes the longest run
/// of letters, digits and underscores from there (so `x1` is one name, not `x` then `1`), and is
/// the keyword that run spells or else the name made of its characters.
pub proof fn lemma_word_token(input: Seq<u8>, p: int)
    requires
        0 <= p < input.len(),
        letter_or_underscore(input[p]),
    ensures
        ({
            let (r, q) = token_at(input, p);
            &&& p < q <= input.len()
            &&& forall|i: int| p <= i < q ==> word_byte(#[trigger] input[i])
            &&& (q == input.len() || !word_byte(input[q]))
            &&& r == match keyword(input.subrange(p, q)) {
                Some(t) => Ok::<SpecToken, LexError>(t),
                None => Ok::<SpecToken, LexError>(SpecToken::Identifier(ascii_chars(input.subrange(p, q)))),
            }
        }),
{
    lemma_ident_run(input, p);
}

/// A number is lexed whole: the token takes the longest run of digits from its first digit, and
/// is the integer they write, or an error when it does not fit in 64 bits.
pub proof fn lemma_number_token(input: Seq<u8>, p: int)
    requires
        0 <= p < input.len(),
        decimal_digit(input[p]),
    ensures
        ({
            let (r, q) = token_at(input, p);
            &&& p < q <= input.len()
            &&& forall|i: int| p <= i < q ==> decimal_digit(#[trigger] input[i])
            &&& (q == input.len() || !decimal_digit(input[q]))
            &&& r == if decimal_value(input.subrange(p, q)) <= i64::MAX {
                Ok::<SpecToken, LexError>(SpecToken::Integer(decimal_value(input.subrange(p, q)) as i64))
            } else {
                Err::<SpecToken, LexError>(LexError::InvalidInteger)
            }
        }),
{
    lemma_digit_run(input, p);
}

/// The punctuation of the language, byte by byte (ASCII codes): `+ - * / ; ( ) { }` are one-byte
/// tokens; `=`, `<` and `>` take a following `=` into `==`, `<=` and `>=`; `!` must be followed by
/// `=` to make `!=`.
pub proof fn lemma_punctuation_tokens(input: Seq<u8>, p: int)
    requires
        0 <= p < input.len(),
    ensures
        ({
            let b = input[p];
            let eq_next = p + 1 < input.len() && input[p + 1] == 61u8;
            let t = token_at(input, p);
            &&& b == 43u8 ==> t == (Ok::<SpecToken, LexError>(SpecToken::Plus), p + 1)
            &&& b == 45u8 ==> t == (Ok::<SpecToken, LexError>(SpecToken::Minus), p + 1)
            &&& b == 42u8 ==> t == (Ok::<SpecToken, LexError>(SpecToken::Star), p + 1)
            &&& b == 47u8 ==> t == (Ok::<SpecToken, LexError>(SpecToken::Slash), p + 1)
            &&& b == 59u8 ==> t == (Ok::<SpecToken, LexError>(SpecToken::Semicolon), p + 1)
            &&& b == 40u8 ==> t == (Ok::<SpecToken, LexError>(SpecToken::LeftParen), p + 1)
            &&& b == 41u8 ==> t == (Ok::<SpecToken, LexError>(SpecToken::RightParen), p + 1)
            &&& b == 123u8 ==> t == (Ok::<SpecToken, LexError>(SpecToken::LeftBrace), p + 1)
            &&& b == 125u8 ==> t == (Ok::<SpecToken, LexError>(SpecToken::RightBrace), p + 1)
            &&& b == 61u8 && eq_next ==> t == (Ok::<SpecToken, LexError>(SpecToken::EqualEqual), p + 2)
            &&& b == 61u8 && !eq_next ==> t == (Ok::<SpecToken, LexError>(SpecToken::Equal), p + 1)
            &&& b == 60u8 && eq_next ==> t == (Ok::<SpecToken, LexError>(SpecToken::LessEqual), p + 2)
            &&& b == 60u8 && !eq_next ==> t == (Ok::<SpecToken, LexError>(SpecToken::Less), p + 1)
            &&& b == 62u8 && eq_next ==> t == (Ok::<SpecToken, LexError>(SpecToken::GreaterEqual), p + 2)
            &&& b == 62u8 && !eq_next ==> t == (Ok::<SpecToken, LexError>(SpecToken::Greater), p + 1)
            &&& b == 33u8 && eq_next ==> t == (Ok::<SpecToken, LexError>(SpecToken::NotEqual), p + 2)
            &&& b == 33u8 && !eq_next ==> t.0 is Err
        }),
{
}

/// The keywords are exactly the six words `let`, `return`, `if`, `else`, `true` and `false`
/// (ASCII codes), each its own token.
pub proof fn lemma_keywords(word: Seq<u8>)
    ensures
        word == seq![108u8, 101u8, 116u8] ==> keyword(word) == Some(SpecToken::Let),
        word == seq![114u8, 101u8, 116u8, 117u8, 114u8, 110u8] ==> keyword(word) == Some(SpecToken::Return),
        word == seq![105u8, 102u8] ==> keyword(word) == Some(SpecToken::If),
        word == seq![101u8, 108u8, 115u8, 101u8] ==> keyword(word) == Some(SpecToken::Else),
        word == seq![116u8, 114u8, 117u8, 101u8] ==> keyword(word) == Some(SpecToken::True),
        word == seq![102u8, 97u8, 108u8, 115u8, 101u8] ==> keyword(word) == Some(SpecToken::False),
        !(word == seq![108u8, 101u8, 116u8] || word == seq![114u8, 101u8, 116u8, 117u8, 114u8, 110u8] || word
            == seq![105u8, 102u8] || word == seq![101u8, 108u8, 115u8, 101u8] || word == seq![
            116u8,
            114u8,
            117u8,
            101u8,
        ] || word == seq![102u8, 97u8, 108u8, 115u8, 101u8]) ==> keyword(word) is None,
{
}

/// Parentheses group first: in `( a o1 b ) o2 c ;` the parenthesized operation is the left operand
/// of `o2`, however tightly the operators bind; and `true`, `false`, numbers and names are the
/// operands they write.
pub proof fn lemma_parentheses(tokens: Seq<Token>, pos: int, a: Token, o1: Token, b: Token, o2: Token, c: Token)
    requires
        0 <= pos,
        pos + 8 <= tokens.len(),
        tokens[pos] == Token::LeftParen,
        tokens[pos + 1] == a,
        tokens[pos + 2] == o1,
        tokens[pos + 3] == b,
        tokens[pos + 4] == Token::RightParen,
        tokens[pos + 5] == o2,
        tokens[pos + 6] == c,
        tokens[pos + 7] == Token::Semicolon,
        operand_token(a) is Some,
        operand_token(b) is Some,
        operand_token(c) is Some,
        operator_token(o1) is Some,
        operator_token(o2) is Some,
    ensures
        expression_spec(tokens, pos, 0) == (
            Ok::<Expr, ParseError>(
                grouped(
                    operand_token(a).unwrap(),
                    operator_token(o1).unwrap(),
                    operand_token(b).unwrap(),
                    operator_token(o2).unwrap(),
                    operand_token(c).unwrap(),
                    false,
                ),
            ),
            pos + 7,
        ),
{
    let ea = operand_token(a).unwrap();
    let eb = operand_token(b).unwrap();
    let ec = operand_token(c).unwrap();
    let op1 = operator_token(o1).unwrap();
    let op2 = operator_token(o2).unwrap();
    let p1 = binding(o1) as u8;
    let p2 = binding(o2) as u8;
    assert(crate::parser::binary_op_of(o1) == Some((op1, p1)));
    assert(crate::parser::binary_op_of(o2) == Some((op2, p2)));
    assert(crate::parser::binary_op_of(Token::Semicolon) is None);
    assert(crate::parser::binary_op_of(Token::RightParen) is None);
    let first = Expr::Binary { left: Box::new(ea), op: op1, right: Box::new(eb) };
    assert(primary_spec(tokens, pos + 3) == (Ok::<Expr, ParseError>(eb), pos + 4));
    assert(expression_tail_spec(tokens, pos + 4, (p1 + 1) as u8, eb) == (Ok::<Expr, ParseError>(eb), pos + 4));
    assert(expression_spec(tokens, pos + 3, (p1 + 1) as u8) == (Ok::<Expr, ParseError>(eb), pos + 4));
    assert(expression_tail_spec(tokens, pos + 4, 0, first) == (Ok::<Expr, ParseError>(first), pos + 4));
    assert(primary_spec(tokens, pos + 1) == (Ok::<Expr, ParseError>(ea), pos + 2));
    assert(expression_tail_spec(tokens, pos + 2, 0, ea) == (Ok::<Expr, ParseError>(first), pos + 4));
    assert(expression_spec(tokens, pos + 1, 0) == (Ok::<Expr, ParseError>(first), pos + 4));
    assert(primary_spec(tokens, pos) == (Ok::<Expr, ParseError>(first), pos + 5));
    assert(primary_spec(tokens, pos + 6) == (Ok::<Expr, ParseError>(ec), pos + 7));
    let q = (p2 + 1) as u8;
    assert(expression_tail_spec(tokens, pos + 7, q, ec) == (Ok::<Expr, ParseError>(ec), pos + 7));
    assert(expression_spec(tokens, pos + 6, q) == (Ok::<Expr, ParseError>(ec), pos + 7));
    let whole = Expr::Binary { left: Box::new(first), op: op2, right: Box::new(ec) };
    assert(expression_tail_spec(tokens, pos + 7, 0, whole) == (Ok::<Expr, ParseError>(whole), pos + 7));
    assert(expression_tail_spec(tokens, pos + 5, 0, first) == (Ok::<Expr, ParseError>(whole), pos + 7));
}

/// Whether a byte is whitespace: a space, a tab, a line feed or a carriage return.
pub open spec fn blank(b: u8) -> bool {
    b == 32u8 || b == 9u8 || b == 10u8 || b == 13u8
}

/// Tokens are read after the whitespace before them: skipping from `p` stops at the first byte
/// that is not a space, tab, line feed or carriage return (or at the end), and the next token is
/// the one that starts there.
pub proof fn lemma_whitespace_skipped(input: Seq<u8>, p: int)
    requires
        0 <= p <= input.len(),
    ensures
        p <= skip_spaces(input, p) <= input.len(),
        forall|i: int| p <= i < skip_spaces(input, p) ==> blank(#[trigger] input[i]),
        skip_spaces(input, p) == input.len() || !blank(input[skip_spaces(input, p)]),
        next_token_spec(input, p) == token_at(input, skip_spaces(input, p)),
    decreases input.len() - p,
{
    if p < input.len() && crate::lexer::is_space(input[p]) {
        lemma_whitespace_skipped(input, p + 1);
    }
}

/// A lone operand followed by `{` or `;` is an expression by itself.
proof fn lemma_lone_operand(tokens: Seq<Token>, q: int, a: Token, min: u8)
    requires
        0 <= q,
        q + 2 <= tokens.len(),
        tokens[q] == a,
        tokens[q + 1] == Token::LeftBrace || tokens[q + 1] == Token::Semicolon,
        operand_token(a) is Some,
    ensures
        expression_spec(tokens, q, min) == (Ok::<Expr, ParseError>(operand_token(a).unwrap()), q + 1),
{
    assert(crate::parser::binary_op_of(tokens[q + 1]) is None);
    assert(primary_spec(tokens, q) == (Ok::<Expr, ParseError>(operand_token(a).unwrap()), q + 1));
}

/// `return a;` followed by `}` is a block holding that one return.
proof fn lemma_return_block(tokens: Seq<Token>, q: int, a: Token)
    requires
        0 <= q,
        q + 4 <= tokens.len(),
        tokens[q] == Token::Return,
        tokens[q + 1] == a,
        tokens[q + 2] == Token::Semicolon,
        tokens[q + 3] == Token::RightBrace,
        operand_token(a) is Some,
    ensures
        block_spec(tokens, q) == (
            Ok::<Seq<SpecStatement>, ParseError>(seq![SpecStatement::Return(operand_token(a).unwrap())]),
            q + 4,
        ),
{
    lemma_lone_operand(tokens, q + 1, a, 0);
    let st = SpecStatement::Return(operand_token(a).unwrap());
    assert(statement_spec(tokens, q) == (Ok::<SpecStatement, ParseError>(st), q + 3));
    assert(block_spec(tokens, q + 3) == (Ok::<Seq<SpecStatement>, ParseError>(Seq::empty()), q + 4));
    assert(seq![st] + Seq::<SpecStatement>::empty() =~= seq![st]);
}

/// An `if` statement keeps its parts in place: in `if a { return b; } else { return c; }` the
/// block after the condition is the then branch and the block after `else` the else branch.
pub proof fn lemma_if_parts(tokens: Seq<Token>, pos: int, a: Token, b: Token, c: Token)
    requires
        0 <= pos,
        pos + 13 <= tokens.len(),
        tokens[pos] == Token::If,
        tokens[pos + 1] == a,
        tokens[pos + 2] == Token::LeftBrace,
        tokens[pos + 3] == Token::Return,
        tokens[pos + 4] == b,
        tokens[pos + 5] == Token::Semicolon,
        tokens[pos + 6] == Token::RightBrace,
        tokens[pos + 7] == Token::Else,
        tokens[pos + 8] == Token::LeftBrace,
        tokens[pos + 9] == Token::Return,
        tokens[pos + 10] == c,
        tokens[pos + 11] == Token::Semicolon,
        tokens[pos + 12] == Token::RightBrace,
        operand_token(a) is Some,
        operand_token(b) is Some,
        operand_token(c) is Some,
    ensures
        statement_spec(tokens, pos) == (
            Ok::<SpecStatement, ParseError>(
                SpecStatement::If {
                    condition: operand_token(a).unwrap(),
                    then_branch: seq![SpecStatement::Return(operand_token(b).unwrap())],
                    else_branch: seq![SpecStatement::Return(operand_token(c).unwrap())],
                },
            ),
            pos + 13,
        ),
{
    lemma_lone_operand(tokens, pos + 1, a, 0);
    lemma_return_block(tokens, pos + 3, b);
    lemma_return_block(tokens, pos + 9, c);
}

} // verus!
