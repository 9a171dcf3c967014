//! The parser: a recursive-descent consumer of the tokenizer that
//! materializes the AST, holding at most one buffered token at any time
//! for peek-without-consume lookahead.
//!
//! The module also defines the mathematical model of parsing: the
//! `spec_*` functions parse a sequence of model tokens exactly as the
//! grammar prescribes, and every parsing method is proved to agree with
//! them. [`spec_program`] composed with [`toks_from`] says precisely
//! which inputs parse and what tree they produce.

use vstd::prelude::*;
use crate::token::{Token, TokenType, TokM};
use crate::lexer::{Lexer, LexError, LexFail, toks_from, kind_in};
use crate::syntax_tree::{Value, ValueM, Nest, NestM, Flow, IslandM, ProgramIsland, value_view,
    values_view};

verus! {

/// The token kinds that may begin a flow value.
pub open spec fn is_value_start(k: TokenType) -> bool {
    k == TokenType::NAME || k == TokenType::NUMBER || k == TokenType::STRING || k == TokenType::EXCL
        || k == TokenType::LPAREN || k == TokenType::LBRACE
}

/// The kind of the next token of a remaining stream: end-of-input when
/// the stream is exhausted.
pub open spec fn head_kind(ts: Seq<TokM>) -> TokenType {
    if ts.len() == 0 {
        TokenType::EOF
    } else {
        ts[0].kind()
    }
}

/// A token the tokenizer can actually produce: a literal token carries
/// its payload in its own variant, never as a bare keyword of a literal
/// kind, and the end-of-input marker is never an element of a stream.
pub open spec fn canonical(t: TokM) -> bool {
    match t {
        TokM::Kw(k) => k != TokenType::NAME && k != TokenType::NUMBER && k != TokenType::STRING
            && k != TokenType::EOF,
        TokM::End => false,
        _ => true,
    }
}

/// Every token of a stream the tokenizer produced is canonical.
pub open spec fn canonical_toks(ts: Seq<TokM>) -> bool {
    forall|i: int| 0 <= i < ts.len() ==> canonical(#[trigger] ts[i])
}

/// Parses one value at the head of `ts`: a simple value, a group (whose
/// inner values splice into the enclosing flow), or an internal flow
/// (which wraps as one value). Returns the spliced values and the
/// remaining tokens, or `None` on any violated expectation.
pub open spec fn spec_value(ts: Seq<TokM>) -> Option<(Seq<ValueM>, Seq<TokM>)>
    decreases ts.len(), 0int,
{
    if ts.len() == 0 {
        None
    } else {
        match ts[0] {
            TokM::Name(cs) => Some((seq![ValueM::Name(cs)], ts.drop_first())),
            TokM::Num(n) => Some((seq![ValueM::Num(n)], ts.drop_first())),
            TokM::Str(cs) => Some((seq![ValueM::Str(cs)], ts.drop_first())),
            TokM::Kw(k) => if k == TokenType::EXCL {
                Some((seq![ValueM::Trigger], ts.drop_first()))
            } else if k == TokenType::LPAREN {
                match spec_flow(ts.drop_first(), TokenType::RPAREN) {
                    Some((vs, rest)) => if rest.len() > 0 && rest[0].kind() == TokenType::RPAREN {
                        Some((vs, rest.drop_first()))
                    } else {
                        None
                    },
                    None => None,
                }
            } else if k == TokenType::LBRACE {
                match spec_flow(ts.drop_first(), TokenType::RBRACE) {
                    Some((vs, rest)) => if rest.len() > 0 && rest[0].kind() == TokenType::RBRACE {
                        Some((seq![ValueM::Flow(vs)], rest.drop_first()))
                    } else {
                        None
                    },
                    None => None,
                }
            } else {
                None
            },
            TokM::End => None,
        }
    }
}

/// Parses values until a token of kind `end` is peeked, accumulating the
/// spliced values in written order; the `end` token itself is not
/// consumed. `None` on any violated expectation, including exhaustion of
/// the stream before `end`.
pub open spec fn spec_flow(ts: Seq<TokM>, end: TokenType) -> Option<(Seq<ValueM>, Seq<TokM>)>
    decreases ts.len(), 1int,
{
    if ts.len() == 0 {
        None
    } else if ts[0].kind() == end {
        Some((Seq::empty(), ts))
    } else if is_value_start(ts[0].kind()) {
        match spec_value(ts) {
            Some((vs, rest)) => if rest.len() < ts.len() {
                match spec_flow(rest, end) {
                    Some((vs2, rest2)) => Some((vs + vs2, rest2)),
                    None => None,
                }
            } else {
                None
            },
            None => None,
        }
    } else {
        None
    }
}

/// Prefixes already-parsed values onto the outcome of parsing the rest
/// of a flow.
pub open spec fn flow_join(vs: Seq<ValueM>, rest: Option<(Seq<ValueM>, Seq<TokM>)>) -> Option<
    (Seq<ValueM>, Seq<TokM>),
> {
    match rest {
        Some((vs2, rest2)) => Some((vs + vs2, rest2)),
        None => None,
    }
}

/// Parses the declared names of a nest until the closing parenthesis is
/// peeked; the parenthesis itself is not consumed.
pub open spec fn spec_nest_names(ts: Seq<TokM>) -> Option<(Seq<Seq<char>>, Seq<TokM>)>
    decreases ts.len(),
{
    if ts.len() == 0 {
        None
    } else if ts[0].kind() == TokenType::RPAREN {
        Some((Seq::empty(), ts))
    } else {
        match ts[0] {
            TokM::Name(cs) => match spec_nest_names(ts.drop_first()) {
                Some((ns, rest)) => Some((seq![cs] + ns, rest)),
                None => None,
            },
            _ => None,
        }
    }
}

/// Prefixes already-parsed names onto the outcome of parsing the rest of
/// a nest's name list.
pub open spec fn names_join(ns: Seq<Seq<char>>, rest: Option<(Seq<Seq<char>>, Seq<TokM>)>) -> Option<
    (Seq<Seq<char>>, Seq<TokM>),
> {
    match rest {
        Some((ns2, rest2)) => Some((ns + ns2, rest2)),
        None => None,
    }
}

/// Parses one nest declaration at the head of `ts`: the five keyword
/// tokens, the declared names, and the closing parenthesis.
pub open spec fn spec_nest(ts: Seq<TokM>) -> Option<(NestM, Seq<TokM>)> {
    if ts.len() >= 5 && ts[0].kind() == TokenType::NEST && ts[1].kind() == TokenType::OF
        && ts[2].kind() == TokenType::GREEN && ts[3].kind() == TokenType::TURTLES
        && ts[4].kind() == TokenType::LPAREN {
        match spec_nest_names(ts.skip(5)) {
            Some((ns, rest)) => if rest.len() > 0 && rest[0].kind() == TokenType::RPAREN {
                Some((NestM::Green(ns), rest.drop_first()))
            } else {
                None
            },
            None => None,
        }
    } else {
        None
    }
}

/// Parses the part of a program after its optional nest: the opening
/// marker, the main flow, the closing marker, and end of input.
pub open spec fn spec_program_rest(nests: Seq<NestM>, ts: Seq<TokM>) -> Option<IslandM> {
    if ts.len() > 0 && ts[0].kind() == TokenType::SHORELINE {
        match spec_flow(ts.drop_first(), TokenType::HORIZON) {
            Some((vs, rest)) => if rest.len() == 1 && rest[0].kind() == TokenType::HORIZON {
                Some(IslandM { nests, sea_flow: vs })
            } else {
                None
            },
            None => None,
        }
    } else {
        None
    }
}

/// Parses a whole program: at most one nest declaration, decided by one
/// token of lookahead, then the delimited main flow, then end of input.
pub open spec fn spec_program(ts: Seq<TokM>) -> Option<IslandM> {
    if ts.len() == 0 {
        None
    } else if ts[0].kind() == TokenType::NEST {
        match spec_nest(ts) {
            Some((nest, rest)) => spec_program_rest(seq![nest], rest),
            None => None,
        }
    } else if ts[0].kind() == TokenType::SHORELINE {
        spec_program_rest(Seq::empty(), ts)
    } else {
        None
    }
}

/// Parsing one value always consumes at least one token, and parsing a
/// flow never consumes past its `end` token.
pub proof fn lemma_spec_value_shrinks(ts: Seq<TokM>)
    ensures
        spec_value(ts) matches Some((vs, rest)) ==> rest.len() < ts.len(),
    decreases ts.len(), 0int,
{
    if ts.len() > 0 {
        match ts[0] {
            TokM::Kw(k) => {
                if k == TokenType::LPAREN {
                    lemma_spec_flow_shrinks(ts.drop_first(), TokenType::RPAREN);
                } else if k == TokenType::LBRACE {
                    lemma_spec_flow_shrinks(ts.drop_first(), TokenType::RBRACE);
                }
            },
            _ => {},
        }
    }
}

/// A successfully parsed flow leaves a nonempty remainder that begins
/// with its `end` token.
pub proof fn lemma_spec_flow_shrinks(ts: Seq<TokM>, end: TokenType)
    ensures
        spec_flow(ts, end) matches Some((vs, rest)) ==> rest.len() <= ts.len() && rest.len() > 0
            && rest[0].kind() == end,
    decreases ts.len(), 1int,
{
    if ts.len() > 0 && ts[0].kind() != end && is_value_start(ts[0].kind()) {
        lemma_spec_value_shrinks(ts);
        match spec_value(ts) {
            Some((vs, rest)) => {
                lemma_spec_flow_shrinks(rest, end);
            },
            None => {},
        }
    }
}

/// Every token the tokenizer hands out is canonical.
pub proof fn lemma_next_tok_canonical(s: Seq<char>, pos: nat)
    ensures
        crate::lexer::next_tok(s, pos) matches Some(r) ==> (r.0 is End || canonical(r.0)),
{
}

/// Every token of a fully tokenized stream is canonical, and none is the
/// end-of-input marker.
pub proof fn lemma_toks_from_canonical(s: Seq<char>, pos: nat)
    requires
        pos <= s.len(),
    ensures
        toks_from(s, pos) matches Some(ts) ==> canonical_toks(ts),
    decreases s.len() - pos,
{
    match crate::lexer::next_tok(s, pos) {
        None => {},
        Some((t, p2)) => {
            if t != TokM::End && pos < p2 <= s.len() {
                lemma_toks_from_canonical(s, p2);
                lemma_next_tok_canonical(s, pos);
                match toks_from(s, p2) {
                    Some(rest) => {
                        assert forall|i: int|
                            0 <= i < toks_from(s, pos)->Some_0.len() implies canonical(
                            #[trigger] toks_from(s, pos)->Some_0[i],
                        ) by {
                            if i > 0 {
                                assert(toks_from(s, pos)->Some_0[i] == rest[i - 1]);
                            }
                        }
                    },
                    None => {},
                }
            }
        },
    }
}

/// A grammar violation: the second taxonomy of failures. The diagnostic
/// names the acceptable kinds and the kind actually encountered.
#[derive(Debug)]
pub enum ParseError {
    /// A failure at the character level, detected while producing the
    /// offending token.
    Lexical(LexError),
    /// The next token's kind was not a member of the acceptable set.
    Unexpected { expected: Vec<TokenType>, got: TokenType },
}

/// Copies an acceptable-kind set for a diagnostic.
fn kinds_vec(kinds: &[TokenType]) -> (r: Vec<TokenType>)
    ensures
        r@ == kinds@,
{
    let mut v: Vec<TokenType> = Vec::new();
    let mut i: usize = 0;
    while i < kinds.len()
        invariant
            i <= kinds@.len(),
            v@ == kinds@.subrange(0, i as int),
        decreases kinds@.len() - i,
    {
        v.push(kinds[i]);
        i = i + 1;
        proof {
            assert(v@ =~= kinds@.subrange(0, i as int));
        }
    }
    proof {
        assert(v@ =~= kinds@);
    }
    v
}

/// The parser: it owns the tokenizer and at most one buffered token, the
/// pushback slot that makes peek-without-consume possible.
pub struct Parser {
    /// The tokenizer this parser drives.
    pub lexer: Lexer,
    /// The single-token pushback buffer.
    pub cache_tok: Option<Token>,
}

impl Parser {
    /// The tokenizer is well formed and the buffered token, if any, is a
    /// canonical token (in particular never the end-of-input marker).
    pub open spec fn wf(self) -> bool {
        &&& self.lexer.wf()
        &&& match self.cache_tok {
            Some(t) => canonical(t@),
            None => true,
        }
    }

    /// The remaining token stream: the buffered token, if any, followed
    /// by whatever the tokenizer has not yet produced. `None` when some
    /// remaining step of tokenization fails.
    pub open spec fn rem(self) -> Option<Seq<TokM>> {
        match self.cache_tok {
            Some(t) => match toks_from(self.lexer.source@, self.lexer.pos as nat) {
                Some(ts) => Some(seq![t@] + ts),
                None => None,
            },
            None => toks_from(self.lexer.source@, self.lexer.pos as nat),
        }
    }

    /// A termination measure: unvisited characters plus the buffered
    /// token. Consuming a token strictly shrinks it.
    pub open spec fn fuel(self) -> int {
        self.lexer.source@.len() - self.lexer.pos + (if self.cache_tok is Some {
            1int
        } else {
            0int
        })
    }

    /// The remaining token stream of a well-formed parser is canonical.
    pub proof fn lemma_rem_canonical(self)
        requires
            self.wf(),
        ensures
            self.rem() matches Some(ts) ==> canonical_toks(ts),
    {
        lemma_toks_from_canonical(self.lexer.source@, self.lexer.pos as nat);
        match self.cache_tok {
            Some(t) => {
                match toks_from(self.lexer.source@, self.lexer.pos as nat) {
                    Some(ts) => {
                        assert forall|i: int|
                            0 <= i < self.rem()->Some_0.len() implies canonical(
                            #[trigger] self.rem()->Some_0[i],
                        ) by {
                            if i > 0 {
                                assert(self.rem()->Some_0[i] == ts[i - 1]);
                            }
                        }
                    },
                    None => {},
                }
            },
            None => {},
        }
    }

    /// Makes a parser over a complete input buffer.
    pub fn new(source: Vec<char>) -> (p: Parser)
        ensures
            p.wf(),
            p.rem() == toks_from(source@, 0),
            p.fuel() == source@.len(),
    {
        Parser { lexer: Lexer::new(source), cache_tok: None }
    }

    /// Peeks the next token: returns its kind without consuming it, from
    /// the buffer if one is held, else by pulling a fresh token (checked
    /// against the acceptable kinds) into the buffer.
    fn lex(&mut self, valid_toks: &[TokenType]) -> (r: Result<TokenType, ParseError>)
        requires
            old(self).wf(),
            !valid_toks@.contains(TokenType::EOF),
        ensures
            final(self).wf(),
            (match r {
                Ok(k) => {
                    &&& final(self).rem() == old(self).rem()
                    &&& final(self).fuel() <= old(self).fuel()
                    &&& k != TokenType::EOF
                    &&& (old(self).rem() matches Some(ts) ==> ts.len() > 0 && k == ts[0].kind())
                },
                Err(e) => {
                    &&& (old(self).rem() matches Some(ts) ==> !valid_toks@.contains(
                        head_kind(ts),
                    ))
                    &&& (e matches ParseError::Unexpected { expected, got } ==> expected@
                        == valid_toks@ && (old(self).rem() matches Some(ts) ==> got
                        == head_kind(ts)))
                    &&& (e is Lexical ==> old(self).rem() is None)
                },
            }),
    {
        match &self.cache_tok {
            Some(t) => {
                let k = t.typ();
                assert(*final(self) == *old(self));
                Ok(k)
            },
            None => {
                let ghost s = self.lexer.source@;
                let ghost pos0 = self.lexer.pos as nat;
                match self.lexer.lex(valid_toks) {
                    Ok(t) => {
                        let k = t.typ();
                        proof {
                            if t@ is End {
                                assert(valid_toks@.contains(TokenType::EOF));
                            }
                            lemma_next_tok_canonical(s, pos0);
                        }
                        let ghost posn = self.lexer.pos as nat;
                        self.cache_tok = Some(t);
                        proof {
                            match toks_from(s, pos0) {
                                Some(ts) => {
                                    assert(ts == seq![self.cache_tok->Some_0@] + toks_from(
                                        s,
                                        posn,
                                    )->Some_0);
                                },
                                None => {
                                    assert(toks_from(s, posn) is None);
                                },
                            }
                        }
                        Ok(k)
                    },
                    Err(LexFail::Wrong(t)) => {
                        let got = t.typ();
                        proof {
                            match old(self).rem() {
                                Some(ts) => {
                                    if ts.len() == 0 {
                                        assert(t@ == TokM::End);
                                    } else {
                                        assert(ts[0] == t@);
                                    }
                                },
                                None => {},
                            }
                        }
                        Err(ParseError::Unexpected { expected: kinds_vec(valid_toks), got })
                    },
                    Err(LexFail::Error(e)) => {
                        proof {
                            match old(self).rem() {
                                Some(ts) => {
                                    assert(false);
                                },
                                None => {},
                            }
                        }
                        Err(ParseError::Lexical(e))
                    },
                }
            },
        }
    }

    /// Consumes and returns the next token, taking it from the buffer
    /// (re-validating its kind against the acceptable kinds) or pulling
    /// it fresh from the tokenizer.
    fn eat(&mut self, valid_toks: &[TokenType]) -> (r: Result<Token, ParseError>)
        requires
            old(self).wf(),
        ensures
            final(self).wf(),
            (match r {
                Ok(t) => {
                    &&& valid_toks@.contains(t@.kind())
                    &&& canonical(t@) || t@ is End
                    &&& (match old(self).rem() {
                        Some(ts) => {
                            &&& t@ == (if ts.len() > 0 {
                                ts[0]
                            } else {
                                TokM::End
                            })
                            &&& final(self).rem() == Some(
                                if ts.len() > 0 {
                                    ts.drop_first()
                                } else {
                                    Seq::<TokM>::empty()
                                },
                            )
                            &&& (ts.len() > 0 ==> final(self).fuel() < old(self).fuel())
                            &&& final(self).fuel() <= old(self).fuel()
                        },
                        None => {
                            &&& final(self).rem() is None
                            &&& final(self).fuel() < old(self).fuel()
                            &&& !(t@ is End)
                        },
                    })
                },
                Err(e) => {
                    &&& (old(self).rem() matches Some(ts) ==> !valid_toks@.contains(
                        head_kind(ts),
                    ))
                    &&& (e matches ParseError::Unexpected { expected, got } ==> expected@
                        == valid_toks@ && (old(self).rem() matches Some(ts) ==> got
                        == head_kind(ts)))
                    &&& (e is Lexical ==> old(self).rem() is None)
                },
            }),
    {
        let cached = self.cache_tok.take();
        match cached {
            Some(token) => {
                let k = token.typ();
                if kind_in(valid_toks, k) {
                    proof {
                        match toks_from(self.lexer.source@, self.lexer.pos as nat) {
                            Some(ts) => {
                                assert((seq![token@] + ts).drop_first() =~= ts);
                            },
                            None => {},
                        }
                    }
                    Ok(token)
                } else {
                    proof {
                        match old(self).rem() {
                            Some(ts) => {
                                assert(ts[0] == token@);
                            },
                            None => {},
                        }
                    }
                    Err(ParseError::Unexpected { expected: kinds_vec(valid_toks), got: k })
                }
            },
            None => {
                let ghost s = self.lexer.source@;
                let ghost pos0 = self.lexer.pos as nat;
                match self.lexer.lex(valid_toks) {
                    Ok(t) => {
                        proof {
                            lemma_next_tok_canonical(s, pos0);
                            let posn = self.lexer.pos as nat;
                            match toks_from(s, pos0) {
                                Some(ts) => {
                                    if t@ is End {
                                        assert(ts.len() == 0);
                                        assert(toks_from(s, posn) == Some(Seq::<TokM>::empty()));
                                    } else {
                                        assert(ts == seq![t@] + toks_from(s, posn)->Some_0);
                                        assert(ts.drop_first() =~= toks_from(s, posn)->Some_0);
                                    }
                                },
                                None => {
                                    if t@ is End {
                                        assert(toks_from(s, pos0) == Some(Seq::<TokM>::empty()));
                                    }
                                    assert(toks_from(s, posn) is None);
                                },
                            }
                        }
                        Ok(t)
                    },
                    Err(LexFail::Wrong(t)) => {
                        let got = t.typ();
                        proof {
                            match old(self).rem() {
                                Some(ts) => {
                                    if ts.len() == 0 {
                                        assert(t@ == TokM::End);
                                    } else {
                                        assert(ts[0] == t@);
                                    }
                                },
                                None => {},
                            }
                        }
                        Err(ParseError::Unexpected { expected: kinds_vec(valid_toks), got })
                    },
                    Err(LexFail::Error(e)) => {
                        proof {
                            match old(self).rem() {
                                Some(ts) => {
                                    assert(false);
                                },
                                None => {},
                            }
                        }
                        Err(ParseError::Lexical(e))
                    },
                }
            },
        }
    }

    /// Parses one simple value: a name, number, or string literal, or
    /// the trigger marker.
    fn parse_simple_value(&mut self) -> (r: Result<Value, ParseError>)
        requires
            old(self).wf(),
        ensures
            final(self).wf(),
            (match r {
                Ok(v) => match old(self).rem() {
                    Some(ts) => {
                        &&& final(self).rem() is Some
                        &&& spec_value(ts) == Some(
                            (seq![value_view(v)], final(self).rem()->Some_0),
                        )
                        &&& final(self).fuel() < old(self).fuel()
                    },
                    None => final(self).rem() is None && final(self).fuel() < old(self).fuel(),
                },
                Err(e) => {
                    &&& (old(self).rem() matches Some(ts) ==> !(head_kind(ts) == TokenType::NAME
                        || head_kind(ts) == TokenType::NUMBER || head_kind(ts)
                        == TokenType::STRING || head_kind(ts) == TokenType::EXCL))
                    &&& (e is Lexical ==> old(self).rem() is None)
                },
            }),
    {
        proof {
            old(self).lemma_rem_canonical();
        }
        let token = match self.eat(
            &[TokenType::NAME, TokenType::NUMBER, TokenType::STRING, TokenType::EXCL],
        ) {
            Ok(t) => t,
            Err(e) => {
                return Err(e);
            },
        };
        let k = token.typ();
        match k {
            TokenType::NAME => Ok(Value::Name(token.unwrap_name())),
            TokenType::NUMBER => Ok(Value::Number(token.unwrap_number())),
            TokenType::STRING => Ok(Value::Str(token.unwrap_string())),
            TokenType::EXCL => Ok(Value::Trigger),
            _ => unreached(),
        }
    }

    /// Parses one internal flow: a brace-delimited sub-sequence that
    /// becomes a single nested value in the enclosing flow.
    fn parse_internal_flow(&mut self) -> (r: Result<Value, ParseError>)
        requires
            old(self).wf(),
        ensures
            final(self).wf(),
            (match r {
                Ok(v) => match old(self).rem() {
                    Some(ts) => {
                        &&& final(self).rem() is Some
                        &&& spec_value(ts) == Some(
                            (seq![value_view(v)], final(self).rem()->Some_0),
                        )
                        &&& final(self).fuel() < old(self).fuel()
                    },
                    None => final(self).rem() is None && final(self).fuel() < old(self).fuel(),
                },
                Err(e) => {
                    &&& (old(self).rem() matches Some(ts) ==> head_kind(ts) != TokenType::LBRACE
                        || spec_value(ts) is None)
                    &&& (e is Lexical ==> old(self).rem() is None)
                },
            }),
        decreases old(self).fuel(), 0int,
    {
        proof {
            old(self).lemma_rem_canonical();
        }
        match self.eat(&[TokenType::LBRACE]) {
            Ok(_) => {},
            Err(e) => {
                return Err(e);
            },
        }
        let ghost mid = *self;
        let values = match self.parse_bare_flow(TokenType::RBRACE) {
            Ok(vs) => vs,
            Err(e) => {
                return Err(e);
            },
        };
        proof {
            match mid.rem() {
                Some(ts1) => {
                    lemma_spec_flow_shrinks(ts1, TokenType::RBRACE);
                },
                None => {},
            }
        }
        match self.eat(&[TokenType::RBRACE]) {
            Ok(_) => {},
            Err(e) => {
                return Err(e);
            },
        }
        Ok(Value::InternalFlow(values))
    }

    /// Parses one group: a parenthesized sub-sequence whose values splice
    /// directly into the enclosing flow.
    fn parse_group(&mut self) -> (r: Result<Vec<Value>, ParseError>)
        requires
            old(self).wf(),
        ensures
            final(self).wf(),
            (match r {
                Ok(vs) => match old(self).rem() {
                    Some(ts) => {
                        &&& final(self).rem() is Some
                        &&& spec_value(ts) == Some(
                            (values_view(vs@), final(self).rem()->Some_0),
                        )
                        &&& final(self).fuel() < old(self).fuel()
                    },
                    None => final(self).rem() is None && final(self).fuel() < old(self).fuel(),
                },
                Err(e) => {
                    &&& (old(self).rem() matches Some(ts) ==> head_kind(ts) != TokenType::LPAREN
                        || spec_value(ts) is None)
                    &&& (e is Lexical ==> old(self).rem() is None)
                },
            }),
        decreases old(self).fuel(), 0int,
    {
        proof {
            old(self).lemma_rem_canonical();
        }
        match self.eat(&[TokenType::LPAREN]) {
            Ok(_) => {},
            Err(e) => {
                return Err(e);
            },
        }
        let ghost mid = *self;
        let values = match self.parse_bare_flow(TokenType::RPAREN) {
            Ok(vs) => vs,
            Err(e) => {
                return Err(e);
            },
        };
        proof {
            match mid.rem() {
                Some(ts1) => {
                    lemma_spec_flow_shrinks(ts1, TokenType::RPAREN);
                },
                None => {},
            }
        }
        match self.eat(&[TokenType::RPAREN]) {
            Ok(_) => {},
            Err(e) => {
                return Err(e);
            },
        }
        Ok(values)
    }

    /// Parses one value, dispatching on one token of lookahead: a group
    /// splices its inner values into the caller's sequence, an internal
    /// flow and a simple value each contribute exactly one value.
    fn parse_value(&mut self) -> (r: Result<Vec<Value>, ParseError>)
        requires
            old(self).wf(),
        ensures
            final(self).wf(),
            (match r {
                Ok(vs) => match old(self).rem() {
                    Some(ts) => {
                        &&& final(self).rem() is Some
                        &&& spec_value(ts) == Some(
                            (values_view(vs@), final(self).rem()->Some_0),
                        )
                        &&& final(self).fuel() < old(self).fuel()
                    },
                    None => final(self).rem() is None && final(self).fuel() < old(self).fuel(),
                },
                Err(e) => {
                    &&& (old(self).rem() matches Some(ts) ==> spec_value(ts) is None)
                    &&& (e is Lexical ==> old(self).rem() is None)
                },
            }),
        decreases old(self).fuel(), 1int,
    {
        proof {
            old(self).lemma_rem_canonical();
        }
        let k = match self.lex(
            &[
                TokenType::NAME,
                TokenType::NUMBER,
                TokenType::STRING,
                TokenType::EXCL,
                TokenType::LPAREN,
                TokenType::LBRACE,
            ],
        ) {
            Ok(k) => k,
            Err(e) => {
                return Err(e);
            },
        };
        if k == TokenType::LPAREN {
            self.parse_group()
        } else if k == TokenType::LBRACE {
            match self.parse_internal_flow() {
                Ok(v) => {
                    let mut vs: Vec<Value> = Vec::new();
                    vs.push(v);
                    proof {
                        assert(vs@ =~= seq![v]);
                        crate::syntax_tree::lemma_values_view_singleton(v);
                    }
                    Ok(vs)
                },
                Err(e) => Err(e),
            }
        } else {
            match self.parse_simple_value() {
                Ok(v) => {
                    let mut vs: Vec<Value> = Vec::new();
                    vs.push(v);
                    proof {
                        assert(vs@ =~= seq![v]);
                        crate::syntax_tree::lemma_values_view_singleton(v);
                    }
                    Ok(vs)
                },
                Err(e) => Err(e),
            }
        }
    }

    /// Parses a bare flow: values accumulated in written order (with
    /// groups spliced in) until a token of kind `ending` is peeked; the
    /// `ending` token is left for the caller to consume.
    fn parse_bare_flow(&mut self, ending: TokenType) -> (r: Result<Vec<Value>, ParseError>)
        requires
            old(self).wf(),
            ending == TokenType::RPAREN || ending == TokenType::RBRACE || ending
                == TokenType::HORIZON,
        ensures
            final(self).wf(),
            (match r {
                Ok(vs) => match old(self).rem() {
                    Some(ts) => {
                        &&& final(self).rem() is Some
                        &&& spec_flow(ts, ending) == Some(
                            (values_view(vs@), final(self).rem()->Some_0),
                        )
                        &&& final(self).fuel() <= old(self).fuel()
                    },
                    None => final(self).rem() is None && final(self).fuel() <= old(self).fuel(),
                },
                Err(e) => {
                    &&& (old(self).rem() matches Some(ts) ==> spec_flow(ts, ending) is None)
                    &&& (e is Lexical ==> old(self).rem() is None)
                },
            }),
        decreases old(self).fuel(), 2int,
    {
        let mut values: Vec<Value> = Vec::new();
        proof {
            assert(values_view(values@) =~= Seq::<ValueM>::empty());
        }
        loop
            invariant
                self.wf(),
                ending == TokenType::RPAREN || ending == TokenType::RBRACE || ending
                    == TokenType::HORIZON,
                (match old(self).rem() {
                    Some(ts0) => {
                        &&& self.rem() is Some
                        &&& self.fuel() <= old(self).fuel()
                        &&& spec_flow(ts0, ending) == flow_join(
                            values_view(values@),
                            spec_flow(self.rem()->Some_0, ending),
                        )
                    },
                    None => self.rem() is None && self.fuel() <= old(self).fuel(),
                }),
            decreases self.fuel(),
        {
            let ghost pre = *self;
            proof {
                pre.lemma_rem_canonical();
            }
            let k = match self.lex(
                &[
                    ending,
                    TokenType::NAME,
                    TokenType::NUMBER,
                    TokenType::STRING,
                    TokenType::EXCL,
                    TokenType::LPAREN,
                    TokenType::LBRACE,
                ],
            ) {
                Ok(k) => k,
                Err(e) => {
                    return Err(e);
                },
            };
            if k == ending {
                proof {
                    match old(self).rem() {
                        Some(ts0) => {
                            let ts_cur = pre.rem()->Some_0;
                            assert(spec_flow(ts_cur, ending) == Some(
                                (Seq::<ValueM>::empty(), ts_cur),
                            ));
                            assert(values_view(values@) + Seq::<ValueM>::empty() =~= values_view(
                                values@,
                            ));
                        },
                        None => {},
                    }
                }
                return Ok(values);
            }
            let ghost ts_cur_opt = self.rem();
            let mut vs1 = match self.parse_value() {
                Ok(vs) => vs,
                Err(e) => {
                    proof {
                        match old(self).rem() {
                            Some(ts0) => {
                                let ts_cur = ts_cur_opt->Some_0;
                                assert(spec_value(ts_cur) is None);
                                assert(spec_flow(ts_cur, ending) is None);
                            },
                            None => {},
                        }
                    }
                    return Err(e);
                },
            };
            let ghost old_values = values@;
            let ghost vs1_snap = vs1@;
            values.append(&mut vs1);
            proof {
                match old(self).rem() {
                    Some(ts0) => {
                        let ts_cur = ts_cur_opt->Some_0;
                        lemma_spec_value_shrinks(ts_cur);
                        let rest = self.rem()->Some_0;
                        assert(spec_value(ts_cur) == Some((values_view(vs1_snap), rest)));
                        assert(is_value_start(ts_cur[0].kind())) by {
                            if !is_value_start(ts_cur[0].kind()) {
                                assert(spec_value(ts_cur) is None);
                            }
                        }
                        assert(spec_flow(ts_cur, ending) == flow_join(
                            values_view(vs1_snap),
                            spec_flow(rest, ending),
                        ));
                        crate::syntax_tree::lemma_values_view_concat(old_values, vs1_snap);
                        match spec_flow(rest, ending) {
                            Some((vs2, rest2)) => {
                                assert((values_view(old_values) + values_view(vs1_snap)) + vs2
                                    =~= values_view(old_values) + (values_view(vs1_snap) + vs2));
                            },
                            None => {},
                        }
                    },
                    None => {},
                }
            }
        }
    }

    /// Parses one nest declaration: the five keyword tokens, then the
    /// declared names until the closing parenthesis.
    fn parse_nest(&mut self) -> (r: Result<Nest, ParseError>)
        requires
            old(self).wf(),
        ensures
            final(self).wf(),
            (match r {
                Ok(n) => match old(self).rem() {
                    Some(ts) => {
                        &&& final(self).rem() is Some
                        &&& spec_nest(ts) == Some((n@, final(self).rem()->Some_0))
                        &&& final(self).fuel() <= old(self).fuel()
                    },
                    None => final(self).rem() is None && final(self).fuel() <= old(self).fuel(),
                },
                Err(e) => {
                    &&& (old(self).rem() matches Some(ts) ==> spec_nest(ts) is None)
                    &&& (e is Lexical ==> old(self).rem() is None)
                },
            }),
    {
        let ghost ts0_opt = old(self).rem();
        match self.eat(&[TokenType::NEST]) {
            Ok(_) => {},
            Err(e) => {
                return Err(e);
            },
        }
        match self.eat(&[TokenType::OF]) {
            Ok(_) => {},
            Err(e) => {
                return Err(e);
            },
        }
        match self.eat(&[TokenType::GREEN]) {
            Ok(_) => {},
            Err(e) => {
                return Err(e);
            },
        }
        match self.eat(&[TokenType::TURTLES]) {
            Ok(_) => {},
            Err(e) => {
                return Err(e);
            },
        }
        match self.eat(&[TokenType::LPAREN]) {
            Ok(_) => {},
            Err(e) => {
                return Err(e);
            },
        }
        proof {
            match ts0_opt {
                Some(ts0) => {
                    assert(self.rem()->Some_0
                        =~= ts0.skip(5));
                },
                None => {},
            }
        }
        let ghost entry = *self;
        let mut green_turtles: Vec<Vec<char>> = Vec::new();
        proof {
            assert(crate::syntax_tree::names_view(green_turtles@) =~= Seq::<Seq<char>>::empty());
        }
        loop
            invariant
                self.wf(),
                (match entry.rem() {
                    Some(ts5) => {
                        &&& self.rem() is Some
                        &&& self.fuel() <= entry.fuel()
                        &&& spec_nest_names(ts5) == names_join(
                            crate::syntax_tree::names_view(green_turtles@),
                            spec_nest_names(self.rem()->Some_0),
                        )
                    },
                    None => self.rem() is None && self.fuel() <= entry.fuel(),
                }),
                (match ts0_opt {
                    Some(ts0) => entry.rem() is Some && entry.rem()->Some_0 == ts0.skip(5)
                        && ts0.len() >= 5 && ts0[0].kind() == TokenType::NEST && ts0[1].kind()
                        == TokenType::OF && ts0[2].kind() == TokenType::GREEN && ts0[3].kind()
                        == TokenType::TURTLES && ts0[4].kind() == TokenType::LPAREN,
                    None => entry.rem() is None,
                }),
                old(self).rem() == ts0_opt,
                (ts0_opt is None ==> self.fuel() < old(self).fuel()),
                (ts0_opt is Some ==> self.fuel() <= old(self).fuel()),
            decreases self.fuel(),
        {
            let ghost pre = *self;
            proof {
                pre.lemma_rem_canonical();
            }
            let k = match self.lex(&[TokenType::NAME, TokenType::RPAREN]) {
                Ok(k) => k,
                Err(e) => {
                    return Err(e);
                },
            };
            if k == TokenType::RPAREN {
                match self.eat(&[TokenType::RPAREN]) {
                    Ok(_) => {},
                    Err(e) => {
                        return Err(e);
                    },
                }
                proof {
                    match entry.rem() {
                        Some(ts5) => {
                            let ts_cur = pre.rem()->Some_0;
                            assert(spec_nest_names(ts_cur) == Some(
                                (Seq::<Seq<char>>::empty(), ts_cur),
                            ));
                            assert(crate::syntax_tree::names_view(green_turtles@)
                                + Seq::<Seq<char>>::empty() =~= crate::syntax_tree::names_view(
                                green_turtles@,
                            ));
                        },
                        None => {},
                    }
                }
                return Ok(Nest::Green(green_turtles));
            }
            let ghost ts_cur_opt = self.rem();
            let token = match self.eat(&[TokenType::NAME]) {
                Ok(t) => t,
                Err(e) => {
                    return Err(e);
                },
            };
            let name = token.unwrap_name();
            let ghost old_names = green_turtles@;
            green_turtles.push(name);
            proof {
                match entry.rem() {
                    Some(ts5) => {
                        let ts_cur = ts_cur_opt->Some_0;
                        let cs = name@;
                        assert(ts_cur[0] == TokM::Name(cs));
                        assert(spec_nest_names(ts_cur) == names_join(
                            seq![cs],
                            spec_nest_names(ts_cur.drop_first()),
                        ));
                        assert(crate::syntax_tree::names_view(green_turtles@)
                            =~= crate::syntax_tree::names_view(old_names).push(cs));
                        match spec_nest_names(ts_cur.drop_first()) {
                            Some((ns2, rest2)) => {
                                assert(crate::syntax_tree::names_view(old_names).push(cs) + ns2
                                    =~= crate::syntax_tree::names_view(old_names) + (seq![cs]
                                    + ns2));
                            },
                            None => {},
                        }
                    },
                    None => {},
                }
            }
        }
    }

    /// Parses a whole program: at most one nest declaration (decided by
    /// one token of lookahead), the opening marker, the main flow, the
    /// closing marker, and end of input.
    ///
    /// On success the tree is exactly what [`spec_program`] gives for the
    /// tokenization of the input; an error is returned if and only if the
    /// input does not match the grammar, a lexical error meaning the
    /// tokenization itself failed.
    pub fn parse(&mut self) -> (r: Result<ProgramIsland, ParseError>)
        requires
            old(self).wf(),
        ensures
            final(self).wf(),
            (match r {
                Ok(island) => old(self).rem() is Some && spec_program(old(self).rem()->Some_0)
                    == Some(island@),
                Err(e) => {
                    &&& (old(self).rem() matches Some(ts) ==> spec_program(ts) is None)
                    &&& (e is Lexical ==> old(self).rem() is None)
                },
            }),
    {
        let ghost ts0_opt = old(self).rem();
        let mut nests: Vec<Nest> = Vec::new();
        let k = match self.lex(&[TokenType::NEST, TokenType::SHORELINE]) {
            Ok(k) => k,
            Err(e) => {
                return Err(e);
            },
        };
        if k == TokenType::NEST {
            let nest = match self.parse_nest() {
                Ok(n) => n,
                Err(e) => {
                    return Err(e);
                },
            };
            nests.push(nest);
        }
        let ghost nests_snap = nests@;
        let ghost after_nest = *self;
        match self.eat(&[TokenType::SHORELINE]) {
            Ok(_) => {},
            Err(e) => {
                return Err(e);
            },
        }
        let ghost after_shore = *self;
        let values = match self.parse_bare_flow(TokenType::HORIZON) {
            Ok(vs) => vs,
            Err(e) => {
                return Err(e);
            },
        };
        proof {
            match after_shore.rem() {
                Some(tsf) => {
                    lemma_spec_flow_shrinks(tsf, TokenType::HORIZON);
                },
                None => {},
            }
        }
        match self.eat(&[TokenType::HORIZON]) {
            Ok(_) => {},
            Err(e) => {
                return Err(e);
            },
        }
        let ghost before_eof = *self;
        match self.eat(&[TokenType::EOF]) {
            Ok(t) => {
                proof {
                    before_eof.lemma_rem_canonical();
                    match before_eof.rem() {
                        Some(tse) => {
                            if tse.len() > 0 {
                                assert(canonical(tse[0]));
                                assert(t@ == tse[0]);
                                assert(t@.kind() == TokenType::EOF);
                                assert(false);
                            }
                        },
                        None => {
                            assert(!(t@ is End));
                            assert(canonical(t@));
                            assert(t@.kind() != TokenType::EOF);
                            assert(false);
                        },
                    }
                }
            },
            Err(e) => {
                return Err(e);
            },
        }
        let island = ProgramIsland { nests, sea_flow: Flow(values) };
        proof {
            let ts0 = ts0_opt->Some_0;
            if nests_snap.len() == 0 {
                assert(Seq::new(island.nests@.len(), |i: int| island.nests@[i]@)
                    =~= Seq::<NestM>::empty());
            } else {
                assert(Seq::new(island.nests@.len(), |i: int| island.nests@[i]@)
                    =~= seq![nests_snap[0]@]);
            }
        }
        Ok(island)
    }
}

} // verus!
