use vstd::prelude::*;
use vstd::string::StringSliceAdditionalSpecFns;

verus! {

/// Tokens of the source language.
#[derive(Debug, PartialEq, Eq)]
pub enum Token {
    Let,
    Return,
    If,
    Else,
    True,
    False,
    Identifier(String),
    Integer(i64),
    Plus,
    Minus,
    Star,
    Slash,
    Equal,
    EqualEqual,
    NotEqual,
    Less,
    LessEqual,
    Greater,
    GreaterEqual,
    Semicolon,
    LeftParen,
    RightParen,
    LeftBrace,
    RightBrace,
    Eof,
}

/// The mathematical form of a token: identifiers carry their characters.
pub enum SpecToken {
    Let,
    Return,
    If,
    Else,
    True,
    False,
    Identifier(Seq<char>),
    Integer(i64),
    Plus,
    Minus,
    Star,
    Slash,
    Equal,
    EqualEqual,
    NotEqual,
    Less,
    LessEqual,
    Greater,
    GreaterEqual,
    Semicolon,
    LeftParen,
    RightParen,
    LeftBrace,
    RightBrace,
    Eof,
}

impl View for Token {
    type V = SpecToken;

    open spec fn view(&self) -> SpecToken {
        match self {
            Token::Let => SpecToken::Let,
            Token::Return => SpecToken::Return,
            Token::If => SpecToken::If,
            Token::Else => SpecToken::Else,
            Token::True => SpecToken::True,
            Token::False => SpecToken::False,
            Token::Identifier(name) => SpecToken::Identifier(name@),
            Token::Integer(value) => SpecToken::Integer(*value),
            Token::Plus => SpecToken::Plus,
            Token::Minus => SpecToken::Minus,
            Token::Star => SpecToken::Star,
            Token::Slash => SpecToken::Slash,
            Token::Equal => SpecToken::Equal,
            Token::EqualEqual => SpecToken::EqualEqual,
            Token::NotEqual => SpecToken::NotEqual,
            Token::Less => SpecToken::Less,
            Token::LessEqual => SpecToken::LessEqual,
            Token::Greater => SpecToken::Greater,
            Token::GreaterEqual => SpecToken::GreaterEqual,
            Token::Semicolon => SpecToken::Semicolon,
            Token::LeftParen => SpecToken::LeftParen,
            Token::RightParen => SpecToken::RightParen,
            Token::LeftBrace => SpecToken::LeftBrace,
            Token::RightBrace => SpecToken::RightBrace,
            Token::Eof => SpecToken::Eof,
        }
    }
}

impl Clone for Token {
    fn clone(&self) -> (copy: Self)
        ensures
            copy == *self,
    {
        match self {
            Token::Let => Token::Let,
            Token::Return => Token::Return,
            Token::If => Token::If,
            Token::Else => Token::Else,
            Token::True => Token::True,
            Token::False => Token::False,
            Token::Identifier(name) => Token::Identifier(name.clone()),
            Token::Integer(value) => Token::Integer(*value),
            Token::Plus => Token::Plus,
            Token::Minus => Token::Minus,
            Token::Star => Token::Star,
            Token::Slash => Token::Slash,
            Token::Equal => Token::Equal,
            Token::EqualEqual => Token::EqualEqual,
            Token::NotEqual => Token::NotEqual,
            Token::Less => Token::Less,
            Token::LessEqual => Token::LessEqual,
            Token::Greater => Token::Greater,
            Token::GreaterEqual => Token::GreaterEqual,
            Token::Semicolon => Token::Semicolon,
            Token::LeftParen => Token::LeftParen,
            Token::RightParen => Token::RightParen,
            Token::LeftBrace => Token::LeftBrace,
            Token::RightBrace => Token::RightBrace,
            Token::Eof => Token::Eof,
        }
    }
}

/// Errors reported by the lexer.
#[derive(Debug, Clone, Copy, PartialEq, Eq, Structural)]
pub enum LexError {
    UnexpectedCharacter(char),
    InvalidInteger,
}

pub open spec fn is_space(b: u8) -> bool {
    b == 32u8 || b == 10u8 || b == 13u8 || b == 9u8
}

pub open spec fn is_digit(b: u8) -> bool {
    48u8 <= b <= 57u8
}

pub open spec fn is_ident_start(b: u8) -> bool {
    (97u8 <= b <= 122u8) || (65u8 <= b <= 90u8) || b == 95u8
}

pub open spec fn is_ident_char(b: u8) -> bool {
    is_ident_start(b) || is_digit(b)
}

/// The first position at or after `pos` that does not hold whitespace.
pub open spec fn skip_spaces(input: Seq<u8>, pos: int) -> int
    decreases input.len() - pos,
{
    if 0 <= pos < input.len() && is_space(input[pos]) {
        skip_spaces(input, pos + 1)
    } else {
        pos
    }
}

/// The end of the run of digits that starts at `pos`.
pub open spec fn digits_end(input: Seq<u8>, pos: int) -> int
    decreases input.len() - pos,
{
    if 0 <= pos < input.len() && is_digit(input[pos]) {
        digits_end(input, pos + 1)
    } else {
        pos
    }
}

/// The end of the run of identifier characters that starts at `pos`.
pub open spec fn ident_end(input: Seq<u8>, pos: int) -> int
    decreases input.len() - pos,
{
    if 0 <= pos < input.len() && is_ident_char(input[pos]) {
        ident_end(input, pos + 1)
    } else {
        pos
    }
}

/// The number written in decimal by a sequence of digit bytes.
pub open spec fn decimal_value(digits: Seq<u8>) -> nat
    decreases digits.len(),
{
    if digits.len() == 0 {
        0
    } else {
        decimal_value(digits.drop_last()) * 10 + (digits.last() - 48u8) as nat
    }
}

/// ASCII bytes read as characters.
pub open spec fn ascii_chars(bytes: Seq<u8>) -> Seq<char> {
    bytes.map_values(|b: u8| b as char)
}

/// The keyword spelled by a word, if it is one.
pub open spec fn keyword(word: Seq<u8>) -> Option<SpecToken> {
    if word =~= seq![108u8, 101u8, 116u8] {
        Some(SpecToken::Let)
    } else if word =~= seq![114u8, 101u8, 116u8, 117u8, 114u8, 110u8] {
        Some(SpecToken::Return)
    } else if word =~= seq![105u8, 102u8] {
        Some(SpecToken::If)
    } else if word =~= seq![101u8, 108u8, 115u8, 101u8] {
        Some(SpecToken::Else)
    } else if word =~= seq![116u8, 114u8, 117u8, 101u8] {
        Some(SpecToken::True)
    } else if word =~= seq![102u8, 97u8, 108u8, 115u8, 101u8] {
        Some(SpecToken::False)
    } else {
        None
    }
}

/// The token that starts at `p` (whitespace already skipped) and the position after it.
/// On an error the position is where the lexer stops.
pub open spec fn token_at(input: Seq<u8>, p: int) -> (Result<SpecToken, LexError>, int) {
    if p < 0 || p >= input.len() {
        (Ok(SpecToken::Eof), p)
    } else {
        let b = input[p];
        let next_is_equal = p + 1 < input.len() && input[p + 1] == 61u8;
        if b == 43u8 {
            (Ok(SpecToken::Plus), p + 1)
        } else if b == 45u8 {
            (Ok(SpecToken::Minus), p + 1)
        } else if b == 42u8 {
            (Ok(SpecToken::Star), p + 1)
        } else if b == 47u8 {
            (Ok(SpecToken::Slash), p + 1)
        } else if b == 61u8 {
            if next_is_equal {
                (Ok(SpecToken::EqualEqual), p + 2)
            } else {
                (Ok(SpecToken::Equal), p + 1)
            }
        } else if b == 33u8 {
            if next_is_equal {
                (Ok(SpecToken::NotEqual), p + 2)
            } else {
                (Err(LexError::UnexpectedCharacter('!')), p)
            }
        } else if b == 60u8 {
            if next_is_equal {
                (Ok(SpecToken::LessEqual), p + 2)
            } else {
                (Ok(SpecToken::Less), p + 1)
            }
        } else if b == 62u8 {
            if next_is_equal {
                (Ok(SpecToken::GreaterEqual), p + 2)
            } else {
                (Ok(SpecToken::Greater), p + 1)
            }
        } else if b == 59u8 {
            (Ok(SpecToken::Semicolon), p + 1)
        } else if b == 40u8 {
            (Ok(SpecToken::LeftParen), p + 1)
        } else if b == 41u8 {
            (Ok(SpecToken::RightParen), p + 1)
        } else if b == 123u8 {
            (Ok(SpecToken::LeftBrace), p + 1)
        } else if b == 125u8 {
            (Ok(SpecToken::RightBrace), p + 1)
        } else if is_digit(b) {
            let e = digits_end(input, p);
            let v = decimal_value(input.subrange(p, e));
            if v > i64::MAX {
                (Err(LexError::InvalidInteger), e)
            } else {
                (Ok(SpecToken::Integer(v as i64)), e)
            }
        } else if is_ident_start(b) {
            let e = ident_end(input, p);
            let word = input.subrange(p, e);
            match keyword(word) {
                Some(t) => (Ok(t), e),
                None => (Ok(SpecToken::Identifier(ascii_chars(word))), e),
            }
        } else {
            (Err(LexError::UnexpectedCharacter(b as char)), p)
        }
    }
}

/// The next token after `pos`, skipping whitespace, and the position after it.
pub open spec fn next_token_spec(input: Seq<u8>, pos: int) -> (Result<SpecToken, LexError>, int) {
    token_at(input, skip_spaces(input, pos))
}

/// All tokens from `pos` up to and including `Eof`, or the first error, with the final position.
pub open spec fn lex_from(input: Seq<u8>, pos: int) -> (Result<Seq<SpecToken>, LexError>, int)
    decreases input.len() - pos,
{
    let (r, q) = next_token_spec(input, pos);
    match r {
        Err(e) => (Err(e), q),
        Ok(t) => if t is Eof {
            (Ok(seq![t]), q)
        } else if q <= pos || q > input.len() {
            (Err(LexError::InvalidInteger), q)
        } else {
            let (rest, f) = lex_from(input, q);
            match rest {
                Ok(ts) => (Ok(seq![t] + ts), f),
                Err(e) => (Err(e), f),
            }
        },
    }
}

pub open spec fn token_views(tokens: Seq<Token>) -> Seq<SpecToken> {
    tokens.map_values(|t: Token| t@)
}

pub open spec fn token_result_view(r: Result<Token, LexError>) -> Result<SpecToken, LexError> {
    match r {
        Ok(t) => Ok(t@),
        Err(e) => Err(e),
    }
}

pub open spec fn tokens_result_view(r: Result<Vec<Token>, LexError>) -> Result<Seq<SpecToken>, LexError> {
    match r {
        Ok(ts) => Ok(token_views(ts@)),
        Err(e) => Err(e),
    }
}

proof fn lemma_skip_spaces(input: Seq<u8>, pos: int)
    requires
        0 <= pos <= input.len(),
    ensures
        pos <= skip_spaces(input, pos) <= input.len(),
    decreases input.len() - pos,
{
    if pos < input.len() && is_space(input[pos]) {
        lemma_skip_spaces(input, pos + 1);
    }
}

proof fn lemma_digits_end(input: Seq<u8>, pos: int)
    requires
        0 <= pos <= input.len(),
    ensures
        pos <= digits_end(input, pos) <= input.len(),
        forall|i: int| pos <= i < digits_end(input, pos) ==> is_digit(#[trigger] input[i]),
    decreases input.len() - pos,
{
    if pos < input.len() && is_digit(input[pos]) {
        lemma_digits_end(input, pos + 1);
    }
}

proof fn lemma_ident_end(input: Seq<u8>, pos: int)
    requires
        0 <= pos <= input.len(),
    ensures
        pos <= ident_end(input, pos) <= input.len(),
        forall|i: int| pos <= i < ident_end(input, pos) ==> is_ident_char(#[trigger] input[i]),
    decreases input.len() - pos,
{
    if pos < input.len() && is_ident_char(input[pos]) {
        lemma_ident_end(input, pos + 1);
    }
}

/// The lexer consumes at least one byte for every token but `Eof`, and never runs past the input.
proof fn lemma_token_at_advances(input: Seq<u8>, p: int)
    requires
        0 <= p <= input.len(),
    ensures
        token_at(input, p).1 <= input.len(),
        token_at(input, p).0 matches Ok(t) ==> (t is Eof || token_at(input, p).1 > p),
        token_at(input, p).0 matches Ok(t) ==> (t is Eof <==> p == input.len()),
{
    if p < input.len() {
        let b = input[p];
        if is_digit(b) {
            lemma_digits_end(input, p);
            lemma_digits_end(input, p + 1);
        } else if is_ident_start(b) {
            lemma_ident_end(input, p);
            lemma_ident_end(input, p + 1);
            let e = ident_end(input, p);
            let word = input.subrange(p, e);
            if keyword(word) is Some {
                assert(!(keyword(word).unwrap() is Eof));
            }
        }
    }
}

/// Builds an owned `String` from ASCII bytes with `String::from_utf8`. ASCII is valid UTF-8, so the
/// call succeeds, and each byte becomes the character with that code.
#[verifier::external_body]
pub(crate) fn string_from_ascii(bytes: Vec<u8>) -> (s: String)
    requires
        forall|i: int| 0 <= i < bytes@.len() ==> bytes@[i] < 128,
    ensures
        s@ == ascii_chars(bytes@),
{
    String::from_utf8(bytes).unwrap()
}

/// A lexer over the bytes of a source text.
pub struct Lexer<'a> {
    input: &'a [u8],
    position: usize,
}

impl<'a> Lexer<'a> {
    #[verifier::type_invariant]
    spec fn inv(self) -> bool {
        self.position <= self.input@.len()
    }

    /// The bytes being lexed.
    pub closed spec fn input(self) -> Seq<u8> {
        self.input@
    }

    /// The position of the next byte to read.
    pub closed spec fn position(self) -> int {
        self.position as int
    }

    pub fn new(input: &'a str) -> (lexer: Self)
        ensures
            lexer.input() == input.spec_bytes(),
            lexer.position() == 0,
    {
        Self { input: input.as_bytes(), position: 0 }
    }

    /// Lexes the rest of the input: every token up to and including `Eof`, or the first error.
    pub fn tokenize(&mut self) -> (result: Result<Vec<Token>, LexError>)
        ensures
            final(self).input() == old(self).input(),
            (tokens_result_view(result), final(self).position()) == lex_from(
                old(self).input(),
                old(self).position(),
            ),
    {
        let ghost input = self.input@;
        let ghost start = self.position as int;
        let mut tokens: Vec<Token> = Vec::new();
        proof {
            use_type_invariant(&*self);
            assert(token_views(tokens@) =~= Seq::<SpecToken>::empty());
        }
        let mut failure: Option<LexError> = None;
        loop
            invariant_except_break
                self.input@ == input,
                self.position <= input.len(),
                failure is None,
                ({
                    let (r, f) = lex_from(input, self.position as int);
                    lex_from(input, start) == (
                        match r {
                            Ok(ts) => Ok(token_views(tokens@) + ts),
                            Err(e) => Err(e),
                        },
                        f,
                    )
                }),
            ensures
                self.input@ == input,
                lex_from(input, start).1 == self.position as int,
                failure matches Some(e) ==> lex_from(input, start).0 == Err::<Seq<SpecToken>, LexError>(e),
                failure is None ==> lex_from(input, start).0 == Ok::<Seq<SpecToken>, LexError>(token_views(tokens@)),
            decreases input.len() - self.position,
        {
            let ghost before = self.position as int;
            let ghost old_tokens = tokens@;
            let token = self.next_token();
            proof {
                use_type_invariant(&*self);
                lemma_skip_spaces(input, before);
                lemma_token_at_advances(input, skip_spaces(input, before));
            }
            match token {
                Err(e) => {
                    proof {
                        assert(lex_from(input, before) == (Err::<Seq<SpecToken>, LexError>(e), self.position as int));
                        let (r0, f0) = lex_from(input, before);
                        assert(r0 == Err::<Seq<SpecToken>, LexError>(e));
                        assert(lex_from(input, start).0 == Err::<Seq<SpecToken>, LexError>(e));
                        assert(lex_from(input, start).1 == self.position as int);
                    }
                    failure = Some(e);
                    break;
                },
                Ok(token) => {
                    let done = match token {
                        Token::Eof => true,
                        _ => false,
                    };
                    tokens.push(token);
                    proof {
                        assert(token_views(tokens@) =~= token_views(old_tokens).push(tokens@.last()@));
                        let (rest, f) = lex_from(input, self.position as int);
                        assert(token_views(old_tokens) + seq![tokens@.last()@] =~= token_views(tokens@));
                        if !done {
                            match rest {
                                Ok(ts) => {
                                    assert(token_views(old_tokens) + (seq![tokens@.last()@] + ts)
                                        =~= token_views(tokens@) + ts);
                                },
                                Err(_) => {},
                            }
                        }
                    }
                    if done {
                        break;
                    }
                },
            }
        }
        match failure {
            Some(e) => Err(e),
            None => Ok(tokens),
        }
    }

    /// Reads the next token, skipping whitespace before it.
    pub fn next_token(&mut self) -> (result: Result<Token, LexError>)
        ensures
            final(self).input() == old(self).input(),
            (token_result_view(result), final(self).position()) == next_token_spec(
                old(self).input(),
                old(self).position(),
            ),
    {
        self.skip_whitespace();
        proof {
            use_type_invariant(&*self);
        }
        let p = self.position;
        let byte = match self.peek() {
            Some(b) => b,
            None => {
                return Ok(Token::Eof);
            },
        };
        assert(p < self.input.len());
        let next_is_equal = p + 1 < self.input.len() && self.input[p + 1] == 61u8;
        if byte == 43u8 {
            self.position = p + 1;
            Ok(Token::Plus)
        } else if byte == 45u8 {
            self.position = p + 1;
            Ok(Token::Minus)
        } else if byte == 42u8 {
            self.position = p + 1;
            Ok(Token::Star)
        } else if byte == 47u8 {
            self.position = p + 1;
            Ok(Token::Slash)
        } else if byte == 61u8 {
            if next_is_equal {
                self.position = p + 2;
                Ok(Token::EqualEqual)
            } else {
                self.position = p + 1;
                Ok(Token::Equal)
            }
        } else if byte == 33u8 {
            if next_is_equal {
                self.position = p + 2;
                Ok(Token::NotEqual)
            } else {
                Err(LexError::UnexpectedCharacter('!'))
            }
        } else if byte == 60u8 {
            if next_is_equal {
                self.position = p + 2;
                Ok(Token::LessEqual)
            } else {
                self.position = p + 1;
                Ok(Token::Less)
            }
        } else if byte == 62u8 {
            if next_is_equal {
                self.position = p + 2;
                Ok(Token::GreaterEqual)
            } else {
                self.position = p + 1;
                Ok(Token::Greater)
            }
        } else if byte == 59u8 {
            self.position = p + 1;
            Ok(Token::Semicolon)
        } else if byte == 40u8 {
            self.position = p + 1;
            Ok(Token::LeftParen)
        } else if byte == 41u8 {
            self.position = p + 1;
            Ok(Token::RightParen)
        } else if byte == 123u8 {
            self.position = p + 1;
            Ok(Token::LeftBrace)
        } else if byte == 125u8 {
            self.position = p + 1;
            Ok(Token::RightBrace)
        } else if 48u8 <= byte && byte <= 57u8 {
            self.lex_integer()
        } else if (97u8 <= byte && byte <= 122u8) || (65u8 <= byte && byte <= 90u8) || byte == 95u8 {
            self.lex_identifier()
        } else {
            Err(LexError::UnexpectedCharacter(byte as char))
        }
    }

    fn peek(&self) -> (byte: Option<u8>)
        ensures
            byte == (if self.position() < self.input().len() {
                Some(self.input()[self.position()])
            } else {
                None::<u8>
            }),
    {
        if self.position < self.input.len() {
            Some(self.input[self.position])
        } else {
            None
        }
    }

    fn skip_whitespace(&mut self)
        ensures
            final(self).input() == old(self).input(),
            final(self).position() == skip_spaces(old(self).input(), old(self).position()),
    {
        proof {
            use_type_invariant(&*self);
        }
        let ghost input = self.input@;
        let ghost start = self.position as int;
        while self.position < self.input.len() && (self.input[self.position] == 32u8
            || self.input[self.position] == 10u8 || self.input[self.position] == 13u8
            || self.input[self.position] == 9u8)
            invariant
                self.input@ == input,
                start <= self.position <= input.len(),
                skip_spaces(input, start) == skip_spaces(input, self.position as int),
            decreases input.len() - self.position,
        {
            self.position = self.position + 1;
        }
    }

    fn lex_integer(&mut self) -> (result: Result<Token, LexError>)
        requires
            old(self).position() < old(self).input().len(),
            is_digit(old(self).input()[old(self).position()]),
        ensures
            final(self).input() == old(self).input(),
            (token_result_view(result), final(self).position()) == token_at(
                old(self).input(),
                old(self).position(),
            ),
    {
        proof {
            use_type_invariant(&*self);
        }
        let ghost input = self.input@;
        let start = self.position;
        let mut value: i64 = 0;
        let mut overflow = false;
        proof {
            assert(input.subrange(start as int, start as int) =~= Seq::<u8>::empty());
        }
        while self.position < self.input.len() && 48u8 <= self.input[self.position]
            && self.input[self.position] <= 57u8
            invariant
                self.input@ == input,
                start <= self.position <= input.len(),
                digits_end(input, start as int) == digits_end(input, self.position as int),
                !overflow ==> value == decimal_value(
                    input.subrange(start as int, self.position as int),
                ),
                overflow ==> decimal_value(input.subrange(start as int, self.position as int))
                    > i64::MAX,
            decreases input.len() - self.position,
        {
            let ghost before = input.subrange(start as int, self.position as int);
            let digit = (self.input[self.position] - 48u8) as i64;
            if !overflow {
                match value.checked_mul(10) {
                    Some(m) => match m.checked_add(digit) {
                        Some(v) => {
                            value = v;
                        },
                        None => {
                            overflow = true;
                        },
                    },
                    None => {
                        overflow = true;
                    },
                }
            }
            self.position = self.position + 1;
            proof {
                let after = input.subrange(start as int, self.position as int);
                assert(after.drop_last() =~= before);
                assert(after.last() == input[self.position - 1]);
            }
        }
        if overflow {
            Err(LexError::InvalidInteger)
        } else {
            Ok(Token::Integer(value))
        }
    }

    fn lex_identifier(&mut self) -> (result: Result<Token, LexError>)
        requires
            old(self).position() < old(self).input().len(),
            is_ident_start(old(self).input()[old(self).position()]),
        ensures
            final(self).input() == old(self).input(),
            (token_result_view(result), final(self).position()) == token_at(
                old(self).input(),
                old(self).position(),
            ),
    {
        proof {
            use_type_invariant(&*self);
        }
        let ghost input = self.input@;
        let start = self.position;
        let mut word: Vec<u8> = Vec::new();
        while self.position < self.input.len() && ((97u8 <= self.input[self.position]
            && self.input[self.position] <= 122u8) || (65u8 <= self.input[self.position]
            && self.input[self.position] <= 90u8) || (48u8 <= self.input[self.position]
            && self.input[self.position] <= 57u8) || self.input[self.position] == 95u8)
            invariant
                self.input@ == input,
                start <= self.position <= input.len(),
                ident_end(input, start as int) == ident_end(input, self.position as int),
                word@ =~= input.subrange(start as int, self.position as int),
                forall|i: int| 0 <= i < word@.len() ==> #[trigger] word@[i] < 128,
            decreases input.len() - self.position,
        {
            word.push(self.input[self.position]);
            self.position = self.position + 1;
        }
        let keyword = keyword_token(&word);
        match keyword {
            Some(t) => Ok(t),
            None => Ok(Token::Identifier(string_from_ascii(word))),
        }
    }
}

/// The keyword token spelled by `word`, if any.
fn keyword_token(word: &Vec<u8>) -> (t: Option<Token>)
    ensures
        match t {
            Some(t) => keyword(word@) == Some(t@),
            None => keyword(word@) is None,
        },
{
    let n = word.len();
    if n == 3 && word[0] == 108u8 && word[1] == 101u8 && word[2] == 116u8 {
        assert(word@ =~= seq![108u8, 101u8, 116u8]);
        return Some(Token::Let);
    }
    if n == 6 && word[0] == 114u8 && word[1] == 101u8 && word[2] == 116u8 && word[3] == 117u8
        && word[4] == 114u8 && word[5] == 110u8 {
        assert(word@ =~= seq![114u8, 101u8, 116u8, 117u8, 114u8, 110u8]);
        return Some(Token::Return);
    }
    if n == 2 && word[0] == 105u8 && word[1] == 102u8 {
        assert(word@ =~= seq![105u8, 102u8]);
        return Some(Token::If);
    }
    if n == 4 && word[0] == 101u8 && word[1] == 108u8 && word[2] == 115u8 && word[3] == 101u8 {
        assert(word@ =~= seq![101u8, 108u8, 115u8, 101u8]);
        return Some(Token::Else);
    }
    if n == 4 && word[0] == 116u8 && word[1] == 114u8 && word[2] == 117u8 && word[3] == 101u8 {
        assert(word@ =~= seq![116u8, 114u8, 117u8, 101u8]);
        return Some(Token::True);
    }
    if n == 5 && word[0] == 102u8 && word[1] == 97u8 && word[2] == 108u8 && word[3] == 115u8
        && word[4] == 101u8 {
        assert(word@ =~= seq![102u8, 97u8, 108u8, 115u8, 101u8]);
        return Some(Token::False);
    }
    None
}

/// A successful run of the lexer reads the whole input and ends with exactly one `Eof`: the
/// tokens before the last are not `Eof`.
pub proof fn lemma_tokens_end_with_eof(input: Seq<u8>, pos: int)
    requires
        0 <= pos <= input.len(),
    ensures
        lex_from(input, pos).0 matches Ok(tokens) ==> {
            &&& tokens.len() >= 1
            &&& tokens.last() is Eof
            &&& forall|i: int| 0 <= i < tokens.len() - 1 ==> !(#[trigger] tokens[i] is Eof)
            &&& lex_from(input, pos).1 == input.len()
        },
    decreases input.len() - pos,
{
    lemma_skip_spaces(input, pos);
    let (r, q) = next_token_spec(input, pos);
    if let Ok(t) = r {
        if !(t is Eof) && pos < q <= input.len() {
            lemma_tokens_end_with_eof(input, q);
            if let Ok(rest) = lex_from(input, q).0 {
                let all = seq![t] + rest;
                assert(all.last() == rest.last());
                assert forall|i: int| 0 <= i < all.len() - 1 implies !(#[trigger] all[i] is Eof) by {
                    if i > 0 {
                        assert(all[i] == rest[i - 1]);
                    }
                }
            }
        }
    }
}

} // verus!
