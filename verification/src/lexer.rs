//! The tokenizer: turns a buffer of characters into typed tokens, one at a
//! time, skipping insignificant whitespace between tokens. Each produced
//! token is checked against a caller-supplied set of acceptable kinds; a
//! token of any other kind is handed back as a failure payload instead.
//!
//! The module also defines the mathematical model of tokenization:
//! [`next_tok`] gives the next token and cursor position at any point of
//! the buffer, and [`toks_from`] gives the whole remaining token sequence
//! (up to, and not including, the end-of-input marker) when every step of
//! lexing succeeds.

use vstd::prelude::*;
use crate::token::{Token, TokenType, TokM};
use crate::keywords::{spec_keyword, keyword_lookup};

verus! {

/// Insignificant whitespace between tokens.
pub open spec fn is_ws_char(c: char) -> bool {
    c == ' ' || c == '\t' || c == '\r' || c == '\n'
}

/// A character that may begin an identifier-name: an ASCII letter or one
/// of the fixed punctuation symbols of the identifier alphabet.
pub open spec fn is_name_start_char(c: char) -> bool {
    (97 <= c as u32 && c as u32 <= 122) || (65 <= c as u32 && c as u32 <= 90) || c == '@'
        || c == '$' || c == '%' || c == ':' || c == '^' || c == '&' || c == '*' || c == '-'
        || c == '+' || c == '=' || c == '|' || c == ';' || c == '~' || c == '<' || c == '>'
        || c == '/' || c == '?' || c == '.' || c == ',' || c == '\\'
}

/// An ASCII decimal digit.
pub open spec fn is_digit_char(c: char) -> bool {
    48 <= c as u32 && c as u32 <= 57
}

/// A character that may continue an identifier-name.
pub open spec fn is_name_char(c: char) -> bool {
    is_name_start_char(c) || is_digit_char(c) || c == '\''
}

/// Whether `c` may begin an identifier-name.
pub fn is_name_start(c: char) -> (r: bool)
    ensures
        r == is_name_start_char(c),
{
    let u = c as u32;
    (97 <= u && u <= 122) || (65 <= u && u <= 90) || c == '@' || c == '$' || c == '%' || c == ':'
        || c == '^' || c == '&' || c == '*' || c == '-' || c == '+' || c == '=' || c == '|'
        || c == ';' || c == '~' || c == '<' || c == '>' || c == '/' || c == '?' || c == '.'
        || c == ',' || c == '\\'
}

/// Whether `c` is an ASCII decimal digit.
pub fn is_digit(c: char) -> (r: bool)
    ensures
        r == is_digit_char(c),
{
    let u = c as u32;
    48 <= u && u <= 57
}

/// Whether `c` may continue an identifier-name.
pub fn is_name(c: char) -> (r: bool)
    ensures
        r == is_name_char(c),
{
    is_name_start(c) || is_digit(c) || c == '\''
}

/// The first position at or after `pos` that does not hold whitespace.
pub open spec fn skip_ws(s: Seq<char>, pos: nat) -> nat
    decreases s.len() - pos when pos <= s.len()
{
    if pos < s.len() && is_ws_char(s[pos as int]) {
        skip_ws(s, pos + 1)
    } else {
        pos
    }
}

/// The end of the identifier-name run that begins at `pos`.
pub open spec fn scan_name_end(s: Seq<char>, pos: nat) -> nat
    decreases s.len() - pos when pos <= s.len()
{
    if pos < s.len() && is_name_char(s[pos as int]) {
        scan_name_end(s, pos + 1)
    } else {
        pos
    }
}

/// The end of the digit run that begins at `pos`.
pub open spec fn scan_digits_end(s: Seq<char>, pos: nat) -> nat
    decreases s.len() - pos when pos <= s.len()
{
    if pos < s.len() && is_digit_char(s[pos as int]) {
        scan_digits_end(s, pos + 1)
    } else {
        pos
    }
}

/// The position of the first double-quote at or after `pos`, if any.
pub open spec fn find_quote(s: Seq<char>, pos: nat) -> Option<nat>
    decreases s.len() - pos when pos <= s.len()
{
    if pos >= s.len() {
        None
    } else if s[pos as int] == '"' {
        Some(pos)
    } else {
        find_quote(s, pos + 1)
    }
}

/// The numeric value of a digit character.
pub open spec fn digit_val(c: char) -> int {
    c as u32 - 48
}

/// The base-10 value of a run of digit characters.
pub open spec fn digits_value(s: Seq<char>) -> int
    decreases s.len(),
{
    if s.len() == 0 {
        0
    } else {
        digits_value(s.drop_last()) * 10 + digit_val(s.last())
    }
}

/// The token that begins at or after `pos` (after whitespace), together
/// with the cursor position just past it. `None` is a lexical error: an
/// unrecognized character, an unterminated string, or an integer literal
/// that does not fit in a signed 32-bit integer.
pub open spec fn next_tok(s: Seq<char>, pos: nat) -> Option<(TokM, nat)> {
    let p = skip_ws(s, pos);
    if p >= s.len() {
        Some((TokM::End, p))
    } else {
        let c = s[p as int];
        if is_name_start_char(c) {
            let e = scan_name_end(s, p);
            let raw = s.subrange(p as int, e as int);
            match spec_keyword(raw) {
                Some(k) => Some((TokM::Kw(k), e)),
                None => Some((TokM::Name(raw), e)),
            }
        } else if is_digit_char(c) {
            let e = scan_digits_end(s, p);
            let v = digits_value(s.subrange(p as int, e as int));
            if v <= i32::MAX {
                Some((TokM::Num(v), e))
            } else {
                None
            }
        } else if c == '"' {
            match find_quote(s, (p + 1) as nat) {
                Some(q) => Some((TokM::Str(s.subrange(p as int + 1, q as int)), (q + 1) as nat)),
                None => None,
            }
        } else if c == '!' {
            Some((TokM::Kw(TokenType::EXCL), (p + 1) as nat))
        } else if c == '(' {
            Some((TokM::Kw(TokenType::LPAREN), (p + 1) as nat))
        } else if c == ')' {
            Some((TokM::Kw(TokenType::RPAREN), (p + 1) as nat))
        } else if c == '{' {
            Some((TokM::Kw(TokenType::LBRACE), (p + 1) as nat))
        } else if c == '}' {
            Some((TokM::Kw(TokenType::RBRACE), (p + 1) as nat))
        } else {
            None
        }
    }
}

/// The sequence of tokens from `pos` to the end of the buffer, exclusive
/// of the end-of-input marker. `None` when any step of lexing fails.
pub open spec fn toks_from(s: Seq<char>, pos: nat) -> Option<Seq<TokM>>
    decreases s.len() - pos when pos <= s.len()
{
    match next_tok(s, pos) {
        None => None,
        Some((t, p2)) => if t == TokM::End {
            Some(Seq::empty())
        } else if pos < p2 <= s.len() {
            match toks_from(s, p2) {
                None => None,
                Some(ts) => Some(seq![t] + ts),
            }
        } else {
            None
        },
    }
}

/// A lexical error: the first taxonomy of failures, detected at the
/// character level.
#[derive(Debug, Clone, Copy, PartialEq, Eq, Structural)]
pub enum LexError {
    /// A character that cannot begin any token.
    BadChar(char),
    /// End of input reached before the closing double-quote of a string.
    UnterminatedStr,
    /// A digit run whose value exceeds the signed 32-bit range.
    NumberOverflow,
}

/// How a single tokenizer step can fail: a lexical error, or a well-formed
/// token whose kind the caller did not accept (handed back as payload).
#[derive(Debug)]
pub enum LexFail {
    Error(LexError),
    Wrong(Token),
}

/// The tokenizer: a character buffer and a cursor, exhausted monotonically.
pub struct Lexer {
    /// The complete input buffer.
    pub source: Vec<char>,
    /// The cursor: the position of the next unvisited character.
    pub pos: usize,
}

impl Lexer {
    /// The cursor never runs past the end of the buffer.
    pub open spec fn wf(self) -> bool {
        self.pos <= self.source.len()
    }

    /// Makes a tokenizer over a complete input buffer, with the cursor at
    /// the start.
    pub fn new(source: Vec<char>) -> (l: Lexer)
        ensures
            l.wf(),
            l.source@ == source@,
            l.pos == 0,
    {
        Lexer { source, pos: 0 }
    }

    /// Whether the cursor stands on an insignificant whitespace character.
    fn at_whitespace(&self) -> (r: bool)
        requires
            self.wf(),
        ensures
            r == (self.pos < self.source@.len() && is_ws_char(self.source@[self.pos as int])),
    {
        if self.pos < self.source.len() {
            let c = self.source[self.pos];
            c == ' ' || c == '\t' || c == '\r' || c == '\n'
        } else {
            false
        }
    }

    /// Whether every character of the buffer has been visited.
    pub fn is_at_end(&self) -> (r: bool)
        ensures
            r == (self.pos >= self.source@.len()),
    {
        self.pos >= self.source.len()
    }

    /// Produces the next token and checks it against the acceptable kinds.
    ///
    /// On success the cursor stands just past the consumed token, exactly
    /// as [`next_tok`] describes; a token of an unacceptable kind is
    /// returned as the failure payload with the cursor still past it; a
    /// lexical error reports its cause.
    pub fn lex(&mut self, valid_toks: &[TokenType]) -> (r: Result<Token, LexFail>)
        requires
            old(self).wf(),
        ensures
            final(self).wf(),
            final(self).source@ == old(self).source@,
            old(self).pos <= final(self).pos,
            (match r {
                Ok(t) => {
                    &&& next_tok(old(self).source@, old(self).pos as nat) == Some(
                        (t@, final(self).pos as nat),
                    )
                    &&& valid_toks@.contains(t@.kind())
                    &&& (t@ is End || old(self).pos < final(self).pos)
                },
                Err(LexFail::Wrong(t)) => {
                    &&& next_tok(old(self).source@, old(self).pos as nat) == Some(
                        (t@, final(self).pos as nat),
                    )
                    &&& !valid_toks@.contains(t@.kind())
                    &&& (t@ is End || old(self).pos < final(self).pos)
                },
                Err(LexFail::Error(_)) => next_tok(old(self).source@, old(self).pos as nat)
                    is None,
            }),
    {
        let ghost pos0 = self.pos as nat;
        while self.at_whitespace()
            invariant
                self.wf(),
                self.source@ == old(self).source@,
                old(self).pos <= self.pos,
                skip_ws(self.source@, pos0) == skip_ws(self.source@, self.pos as nat),
            decreases self.source@.len() - self.pos,
        {
            self.pos = self.pos + 1;
        }
        assert(skip_ws(self.source@, self.pos as nat) == self.pos as nat);
        let token: Token = if self.pos < self.source.len() {
            let c = self.source[self.pos];
            if is_name_start(c) {
                self.lex_name()
            } else if is_digit(c) {
                match self.lex_number() {
                    Ok(t) => t,
                    Err(e) => {
                        return Err(LexFail::Error(e));
                    },
                }
            } else if c == '"' {
                match self.lex_string() {
                    Ok(t) => t,
                    Err(e) => {
                        return Err(LexFail::Error(e));
                    },
                }
            } else if c == '!' {
                self.pos = self.pos + 1;
                Token::Keyword(TokenType::EXCL)
            } else if c == '(' {
                self.pos = self.pos + 1;
                Token::Keyword(TokenType::LPAREN)
            } else if c == ')' {
                self.pos = self.pos + 1;
                Token::Keyword(TokenType::RPAREN)
            } else if c == '{' {
                self.pos = self.pos + 1;
                Token::Keyword(TokenType::LBRACE)
            } else if c == '}' {
                self.pos = self.pos + 1;
                Token::Keyword(TokenType::RBRACE)
            } else {
                return Err(LexFail::Error(LexError::BadChar(c)));
            }
        } else {
            Token::Eof
        };
        let k = token.typ();
        if kind_in(valid_toks, k) {
            Ok(token)
        } else {
            Err(LexFail::Wrong(token))
        }
    }

    /// Consumes the identifier-name run at the cursor and classifies it:
    /// a keyword spelling becomes its keyword token, anything else a name
    /// literal carrying the raw text.
    fn lex_name(&mut self) -> (t: Token)
        requires
            old(self).wf(),
            old(self).pos < old(self).source@.len(),
            is_name_start_char(old(self).source@[old(self).pos as int]),
        ensures
            final(self).wf(),
            final(self).source@ == old(self).source@,
            final(self).pos as nat == scan_name_end(old(self).source@, old(self).pos as nat),
            old(self).pos < final(self).pos,
            t@ == (match spec_keyword(
                old(self).source@.subrange(old(self).pos as int, final(self).pos as int),
            ) {
                Some(k) => TokM::Kw(k),
                None => TokM::Name(
                    old(self).source@.subrange(old(self).pos as int, final(self).pos as int),
                ),
            }),
    {
        let ghost pos0 = self.pos as nat;
        let mut name: Vec<char> = Vec::new();
        while self.pos < self.source.len() && is_name(self.source[self.pos])
            invariant
                self.wf(),
                self.source@ == old(self).source@,
                pos0 <= self.pos,
                name@ == self.source@.subrange(pos0 as int, self.pos as int),
                scan_name_end(self.source@, pos0) == scan_name_end(self.source@, self.pos as nat),
            decreases self.source@.len() - self.pos,
        {
            let c = self.source[self.pos];
            name.push(c);
            self.pos = self.pos + 1;
            proof {
                assert(name@ =~= self.source@.subrange(pos0 as int, self.pos as int));
            }
        }
        assert(scan_name_end(self.source@, self.pos as nat) == self.pos as nat);
        proof {
            lemma_scan_name_start(self.source@, pos0);
        }
        match keyword_lookup(&name) {
            Some(tok_type) => Token::Keyword(tok_type),
            None => Token::Name(name),
        }
    }

    /// Consumes the digit run at the cursor and parses it as a signed
    /// 32-bit integer literal; a run whose value does not fit is a
    /// lexical error.
    fn lex_number(&mut self) -> (r: Result<Token, LexError>)
        requires
            old(self).wf(),
            old(self).pos < old(self).source@.len(),
            is_digit_char(old(self).source@[old(self).pos as int]),
        ensures
            final(self).wf(),
            final(self).source@ == old(self).source@,
            final(self).pos as nat == scan_digits_end(old(self).source@, old(self).pos as nat),
            old(self).pos < final(self).pos,
            ({
                let v = digits_value(
                    old(self).source@.subrange(old(self).pos as int, final(self).pos as int),
                );
                match r {
                    Ok(t) => v <= i32::MAX && t@ == TokM::Num(v),
                    Err(e) => v > i32::MAX && e == LexError::NumberOverflow,
                }
            }),
    {
        let ghost pos0 = self.pos as nat;
        let mut acc: u64 = 0;
        while self.pos < self.source.len() && is_digit(self.source[self.pos])
            invariant
                self.wf(),
                self.source@ == old(self).source@,
                pos0 <= self.pos,
                scan_digits_end(self.source@, pos0) == scan_digits_end(
                    self.source@,
                    self.pos as nat,
                ),
                forall|i: int|
                    pos0 <= i < self.pos ==> is_digit_char(self.source@[i]),
                acc <= 21474836479,
                ({
                    let v = digits_value(self.source@.subrange(pos0 as int, self.pos as int));
                    if acc <= i32::MAX {
                        v == acc
                    } else {
                        v > i32::MAX
                    }
                }),
            decreases self.source@.len() - self.pos,
        {
            let c = self.source[self.pos];
            let ghost prefix = self.source@.subrange(pos0 as int, self.pos as int);
            proof {
                lemma_digits_value_snoc(prefix, c);
                assert(prefix.push(c) =~= self.source@.subrange(
                    pos0 as int,
                    self.pos as int + 1,
                ));
                lemma_digits_value_nonneg(prefix);
            }
            let d: u64 = (c as u32 - 48) as u64;
            if acc <= i32::MAX as u64 {
                acc = acc * 10 + d;
            }
            self.pos = self.pos + 1;
        }
        assert(scan_digits_end(self.source@, self.pos as nat) == self.pos as nat);
        proof {
            lemma_scan_digits_start(self.source@, pos0);
        }
        if acc <= i32::MAX as u64 {
            Ok(Token::Number(acc as i32))
        } else {
            Err(LexError::NumberOverflow)
        }
    }

    /// Consumes a quoted string literal: the characters between the
    /// opening double-quote at the cursor and the next double-quote,
    /// verbatim, with no escape sequences. Reaching end of input before a
    /// closing quote is a lexical error.
    fn lex_string(&mut self) -> (r: Result<Token, LexError>)
        requires
            old(self).wf(),
            old(self).pos < old(self).source@.len(),
            old(self).source@[old(self).pos as int] == '"',
        ensures
            final(self).wf(),
            final(self).source@ == old(self).source@,
            old(self).pos <= final(self).pos,
            (match r {
                Ok(t) => {
                    &&& find_quote(old(self).source@, (old(self).pos + 1) as nat) == Some(
                        (final(self).pos - 1) as nat,
                    )
                    &&& t@ == TokM::Str(
                        old(self).source@.subrange(
                            old(self).pos as int + 1,
                            final(self).pos as int - 1,
                        ),
                    )
                    &&& old(self).pos < final(self).pos
                },
                Err(e) => find_quote(old(self).source@, (old(self).pos + 1) as nat) is None
                    && e == LexError::UnterminatedStr,
            }),
    {
        let ghost pos0 = self.pos as nat;
        let mut string: Vec<char> = Vec::new();
        self.pos = self.pos + 1;
        while self.pos < self.source.len() && self.source[self.pos] != '"'
            invariant
                self.wf(),
                self.source@ == old(self).source@,
                pos0 < self.pos,
                string@ == self.source@.subrange(pos0 as int + 1, self.pos as int),
                find_quote(self.source@, pos0 + 1) == find_quote(self.source@, self.pos as nat),
            decreases self.source@.len() - self.pos,
        {
            let c = self.source[self.pos];
            string.push(c);
            self.pos = self.pos + 1;
            proof {
                assert(string@ =~= self.source@.subrange(pos0 as int + 1, self.pos as int));
            }
        }
        if self.pos < self.source.len() {
            assert(find_quote(self.source@, self.pos as nat) == Some(self.pos as nat));
            self.pos = self.pos + 1;
            Ok(Token::Str(string))
        } else {
            assert(find_quote(self.source@, self.pos as nat) is None);
            Err(LexError::UnterminatedStr)
        }
    }
}

/// Whether `k` is a member of the acceptable-kind set `kinds`.
pub fn kind_in(kinds: &[TokenType], k: TokenType) -> (r: bool)
    ensures
        r == kinds@.contains(k),
{
    let mut i: usize = 0;
    while i < kinds.len()
        invariant
            i <= kinds@.len(),
            forall|j: int| 0 <= j < i ==> kinds@[j] != k,
        decreases kinds@.len() - i,
    {
        if kinds[i] == k {
            assert(kinds@[i as int] == k);
            return true;
        }
        i = i + 1;
    }
    false
}

/// The identifier-name scan never moves the cursor backwards.
pub proof fn lemma_scan_name_lower(s: Seq<char>, pos: nat)
    requires
        pos <= s.len(),
    ensures
        pos <= scan_name_end(s, pos) <= s.len(),
    decreases s.len() - pos,
{
    if pos < s.len() && is_name_char(s[pos as int]) {
        lemma_scan_name_lower(s, pos + 1);
    }
}

/// An identifier-name run is nonempty: its first character is a name
/// character, so the scan moves past it.
proof fn lemma_scan_name_start(s: Seq<char>, pos: nat)
    requires
        pos < s.len(),
        is_name_char(s[pos as int]),
    ensures
        scan_name_end(s, pos) > pos,
{
    lemma_scan_name_lower(s, pos + 1);
}

/// The digit scan never moves the cursor backwards.
pub proof fn lemma_scan_digits_lower(s: Seq<char>, pos: nat)
    requires
        pos <= s.len(),
    ensures
        pos <= scan_digits_end(s, pos) <= s.len(),
    decreases s.len() - pos,
{
    if pos < s.len() && is_digit_char(s[pos as int]) {
        lemma_scan_digits_lower(s, pos + 1);
    }
}

/// A digit run is nonempty: its first character is a digit, so the scan
/// moves past it.
proof fn lemma_scan_digits_start(s: Seq<char>, pos: nat)
    requires
        pos < s.len(),
        is_digit_char(s[pos as int]),
    ensures
        scan_digits_end(s, pos) > pos,
{
    lemma_scan_digits_lower(s, pos + 1);
}

/// Appending one digit multiplies the run's value by ten and adds the
/// digit.
proof fn lemma_digits_value_snoc(s: Seq<char>, c: char)
    ensures
        digits_value(s.push(c)) == digits_value(s) * 10 + digit_val(c),
{
    assert(s.push(c).drop_last() =~= s);
    assert(s.push(c).last() == c);
}

/// The value of a run of digit characters is nonnegative.
proof fn lemma_digits_value_nonneg(s: Seq<char>)
    requires
        forall|i: int| 0 <= i < s.len() ==> is_digit_char(s[i]),
    ensures
        digits_value(s) >= 0,
    decreases s.len(),
{
    if s.len() > 0 {
        assert(forall|i: int| 0 <= i < s.drop_last().len() ==> is_digit_char(s.drop_last()[i]));
        lemma_digits_value_nonneg(s.drop_last());
    }
}


/// A produced token always stands past the skipped whitespace: the
/// cursor advances strictly for every token but the end-of-input marker,
/// which stands exactly at the first non-whitespace position.
pub proof fn lemma_next_tok_advances(s: Seq<char>, pos: nat)
    requires
        pos <= s.len(),
    ensures
        (match next_tok(s, pos) {
            Some((t, p2)) => {
                &&& p2 <= s.len()
                &&& (t is End ==> p2 == skip_ws(s, pos))
                &&& (!(t is End) ==> skip_ws(s, pos) < p2)
            },
            None => true,
        }),
{
    lemma_skip_ws_bounds(s, pos);
    let p = skip_ws(s, pos);
    if p < s.len() {
        let c = s[p as int];
        if is_name_start_char(c) {
            lemma_scan_name_start(s, p);
            lemma_scan_name_lower(s, p);
        } else if is_digit_char(c) {
            lemma_scan_digits_start(s, p);
            lemma_scan_digits_lower(s, p);
        } else if c == '"' {
            match find_quote(s, p + 1) {
                Some(q) => {
                    lemma_find_quote_bounds(s, p + 1);
                },
                None => {},
            }
        }
    }
}

/// Skipping whitespace stays within the buffer and never moves the
/// cursor backwards.
pub proof fn lemma_skip_ws_bounds(s: Seq<char>, pos: nat)
    requires
        pos <= s.len(),
    ensures
        pos <= skip_ws(s, pos) <= s.len(),
    decreases s.len() - pos,
{
    if pos < s.len() && is_ws_char(s[pos as int]) {
        lemma_skip_ws_bounds(s, pos + 1);
    }
}

/// A found closing quote stands at or after the search start, within the
/// buffer.
pub proof fn lemma_find_quote_bounds(s: Seq<char>, pos: nat)
    requires
        pos <= s.len(),
    ensures
        (match find_quote(s, pos) {
            Some(q) => pos <= q < s.len(),
            None => true,
        }),
    decreases s.len() - pos,
{
    if pos < s.len() && s[pos as int] != '"' {
        lemma_find_quote_bounds(s, pos + 1);
    }
}

} // verus!
