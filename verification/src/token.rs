//! The token model: the closed set of lexical categories and the token
//! value shapes, together with their mathematical views.

use vstd::prelude::*;

verus! {

/// The closed enumeration of lexical categories.
///
/// Structural markers, the two program-delimiting keywords (`~~~` and
/// `---`), the declaration keywords, the three literal categories, and the
/// end-of-input marker. `LEATHERBACK` is reserved vocabulary: it is in the
/// keyword table but no grammar production mentions it.
#[derive(Clone, Copy, Debug, PartialEq, Eq, Structural)]
pub enum TokenType {
    NEST,
    OF,
    LEATHERBACK,
    GREEN,
    TURTLES,
    SHORELINE,
    HORIZON,
    NAME,
    NUMBER,
    STRING,
    EXCL,
    LBRACE,
    RBRACE,
    LPAREN,
    RPAREN,
    EOF,
}

/// The mathematical model of a token: its kind, and for the three literal
/// kinds the literal's payload as a sequence of characters or an integer.
pub enum TokM {
    Kw(TokenType),
    Name(Seq<char>),
    Num(int),
    Str(Seq<char>),
    End,
}

impl TokM {
    /// The kind of a model token, derivable without touching its payload.
    pub open spec fn kind(self) -> TokenType {
        match self {
            TokM::Kw(t) => t,
            TokM::Name(_) => TokenType::NAME,
            TokM::Num(_) => TokenType::NUMBER,
            TokM::Str(_) => TokenType::STRING,
            TokM::End => TokenType::EOF,
        }
    }
}

/// A token value: its kind plus, for the literal kinds, the payload.
#[derive(Debug, PartialEq, Eq)]
pub enum Token {
    Keyword(TokenType),
    Name(Vec<char>),
    Number(i32),
    Str(Vec<char>),
    Eof,
}

impl View for Token {
    type V = TokM;

    open spec fn view(&self) -> TokM {
        match self {
            Token::Keyword(t) => TokM::Kw(*t),
            Token::Name(cs) => TokM::Name(cs@),
            Token::Number(n) => TokM::Num(*n as int),
            Token::Str(cs) => TokM::Str(cs@),
            Token::Eof => TokM::End,
        }
    }
}

impl Token {
    /// The kind of this token, without consuming its payload.
    pub fn typ(&self) -> (r: TokenType)
        ensures
            r == self@.kind(),
    {
        match self {
            Token::Keyword(t) => *t,
            Token::Name(_) => TokenType::NAME,
            Token::Number(_) => TokenType::NUMBER,
            Token::Str(_) => TokenType::STRING,
            Token::Eof => TokenType::EOF,
        }
    }

    /// Takes the payload of an identifier-name token.
    pub fn unwrap_name(self) -> (r: Vec<char>)
        requires
            self@ is Name,
        ensures
            self@ == TokM::Name(r@),
    {
        match self {
            Token::Name(name) => name,
            _ => unreached(),
        }
    }

    /// Takes the payload of an integer-number token.
    pub fn unwrap_number(self) -> (r: i32)
        requires
            self@ is Num,
        ensures
            self@ == TokM::Num(r as int),
    {
        match self {
            Token::Number(number) => number,
            _ => unreached(),
        }
    }

    /// Takes the payload of a quoted-string token.
    pub fn unwrap_string(self) -> (r: Vec<char>)
        requires
            self@ is Str,
        ensures
            self@ == TokM::Str(r@),
    {
        match self {
            Token::Str(string) => string,
            _ => unreached(),
        }
    }
}

} // verus!
