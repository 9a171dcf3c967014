//! Laws of the front end, stated and proved over the mathematical models.
//!
//! The central tool is context independence: a successfully parsed
//! fragment of the token stream parses to the same values whatever
//! well-delimited stream follows it. From it follow the round-trip law
//! for internal flows and the transparency of grouping. Keyword
//! precedence and whitespace insignificance are laws of the tokenizer.

use vstd::prelude::*;
use crate::token::{TokenType, TokM};
use crate::keywords::spec_keyword;
use crate::lexer::{skip_ws, scan_name_end, scan_digits_end, find_quote, is_ws_char,
    is_name_start_char, is_name_char, is_digit_char, next_tok, toks_from,
    lemma_next_tok_advances, lemma_skip_ws_bounds, lemma_find_quote_bounds,
    lemma_scan_name_lower, lemma_scan_digits_lower};
use crate::syntax_tree::ValueM;
use crate::parser::{spec_value, spec_flow, is_value_start, lemma_spec_value_shrinks,
    lemma_spec_flow_shrinks};

verus! {

/// The remainder a value parse leaves is a suffix of its input.
proof fn lemma_value_suffix(ts: Seq<TokM>)
    ensures
        spec_value(ts) matches Some(p) ==> p.1 == ts.skip(ts.len() - p.1.len()),
    decreases ts.len(), 0int,
{
    if spec_value(ts) is Some {
        lemma_spec_value_shrinks(ts);
        let p = spec_value(ts)->Some_0;
        match ts[0] {
            TokM::Kw(k) => {
                if k == TokenType::LPAREN || k == TokenType::LBRACE {
                    let end = if k == TokenType::LPAREN {
                        TokenType::RPAREN
                    } else {
                        TokenType::RBRACE
                    };
                    lemma_flow_suffix(ts.drop_first(), end);
                    lemma_spec_flow_shrinks(ts.drop_first(), end);
                    let restf = spec_flow(ts.drop_first(), end)->Some_0.1;
                    assert(restf == ts.drop_first().skip(
                        ts.drop_first().len() - restf.len(),
                    ));
                    assert(p.1 == restf.drop_first());
                    assert(p.1 =~= ts.skip(ts.len() - p.1.len()));
                } else {
                    assert(p.1 =~= ts.skip(ts.len() - p.1.len()));
                }
            },
            _ => {
                assert(p.1 =~= ts.skip(ts.len() - p.1.len()));
            },
        }
    }
}

/// The remainder a flow parse leaves is a suffix of its input.
proof fn lemma_flow_suffix(ts: Seq<TokM>, end: TokenType)
    ensures
        spec_flow(ts, end) matches Some(p) ==> p.1 == ts.skip(ts.len() - p.1.len()),
    decreases ts.len(), 1int,
{
    if spec_flow(ts, end) is Some {
        let p = spec_flow(ts, end)->Some_0;
        if ts[0].kind() == end {
            assert(p.1 =~= ts.skip(0));
        } else {
            lemma_value_suffix(ts);
            lemma_spec_value_shrinks(ts);
            let pv = spec_value(ts)->Some_0;
            lemma_flow_suffix(pv.1, end);
            lemma_spec_flow_shrinks(pv.1, end);
            assert(p.1.len() <= pv.1.len());
            assert(pv.1 == ts.skip(ts.len() - pv.1.len()));
            assert(p.1 == pv.1.skip(pv.1.len() - p.1.len()));
            assert forall|m: int| 0 <= m < p.1.len() implies p.1[m] == ts.skip(
                ts.len() - p.1.len(),
            )[m] by {
                assert(p.1[m] == pv.1[pv.1.len() - p.1.len() + m]);
                assert(pv.1[pv.1.len() - p.1.len() + m] == ts[ts.len() - p.1.len() + m]);
            }
            assert(p.1 =~= ts.skip(ts.len() - p.1.len()));
        }
    }
}

/// Context independence of a value: a fragment that parses as one value,
/// leaving remainder `r1`, parses to the same value in front of any other
/// remainder.
proof fn lemma_value_frame(c: Seq<TokM>, r1: Seq<TokM>, r2: Seq<TokM>)
    requires
        spec_value(c + r1) is Some,
        spec_value(c + r1)->Some_0.1 == r1,
    ensures
        spec_value(c + r2) == Some((spec_value(c + r1)->Some_0.0, r2)),
    decreases c.len(), 0int,
{
    let ts = c + r1;
    lemma_spec_value_shrinks(ts);
    assert(c.len() >= 1);
    assert(ts[0] == c[0]);
    assert((c + r2)[0] == c[0]);
    match ts[0] {
        TokM::Kw(k) => {
            if k == TokenType::LPAREN || k == TokenType::LBRACE {
                let end = if k == TokenType::LPAREN {
                    TokenType::RPAREN
                } else {
                    TokenType::RBRACE
                };
                let cd = c.drop_first();
                assert(ts.drop_first() =~= cd + r1);
                lemma_flow_suffix(cd + r1, end);
                lemma_spec_flow_shrinks(cd + r1, end);
                let pf = spec_flow(cd + r1, end)->Some_0;
                let restf = pf.1;
                assert(restf.drop_first() == r1);
                assert(restf.len() == r1.len() + 1);
                let j = (cd.len() - 1) as nat;
                assert(restf == (cd + r1).skip(j as int));
                assert(cd.skip(j as int) =~= seq![restf[0]]);
                assert(cd + r1 =~= cd.take(j as int) + restf);
                assert(restf =~= seq![restf[0]] + r1);
                lemma_flow_frame(cd.take(j as int), restf, seq![restf[0]] + r2, end, end);
                assert(spec_flow(cd.take(j as int) + (seq![restf[0]] + r2), end) == Some(
                    (pf.0, seq![restf[0]] + r2),
                ));
                assert((c + r2).drop_first() =~= cd.take(j as int) + (seq![restf[0]] + r2));
                assert((seq![restf[0]] + r2).drop_first() =~= r2);
            } else {
                assert(spec_value(ts)->Some_0.1 == ts.drop_first());
                assert(c.len() == 1);
                assert((c + r2).drop_first() =~= r2);
            }
        },
        _ => {
            assert(spec_value(ts)->Some_0.1 == ts.drop_first());
            assert(c.len() == 1);
            assert((c + r2).drop_first() =~= r2);
        },
    }
}

/// Context independence of a flow: a fragment that parses as a bare flow
/// up to one `end1` marker parses to the same values in front of any
/// other remainder that begins with any non-value-start `end2` marker.
proof fn lemma_flow_frame(
    c: Seq<TokM>,
    r1: Seq<TokM>,
    r2: Seq<TokM>,
    end1: TokenType,
    end2: TokenType,
)
    requires
        spec_flow(c + r1, end1) is Some,
        spec_flow(c + r1, end1)->Some_0.1 == r1,
        r2.len() > 0,
        r2[0].kind() == end2,
        !is_value_start(end2),
    ensures
        spec_flow(c + r2, end2) == Some((spec_flow(c + r1, end1)->Some_0.0, r2)),
    decreases c.len(), 1int,
{
    let ts = c + r1;
    lemma_spec_flow_shrinks(ts, end1);
    if ts[0].kind() == end1 {
        assert(spec_flow(ts, end1)->Some_0.1 == ts);
        assert(c.len() == 0);
        assert(c + r2 =~= r2);
    } else {
        let pv = spec_value(ts)->Some_0;
        let pf = spec_flow(pv.1, end1)->Some_0;
        lemma_value_suffix(ts);
        lemma_spec_value_shrinks(ts);
        lemma_spec_flow_shrinks(pv.1, end1);
        let k = (ts.len() - pv.1.len()) as nat;
        assert(pv.1 == ts.skip(k as int));
        assert(pf.1 == r1);
        assert(r1.len() <= pv.1.len());
        assert(k <= c.len());
        assert(pv.1 =~= c.skip(k as int) + r1);
        assert(c + r1 =~= c.take(k as int) + (c.skip(k as int) + r1));
        lemma_value_frame(c.take(k as int), c.skip(k as int) + r1, c.skip(k as int) + r2);
        assert(spec_value(c.take(k as int) + (c.skip(k as int) + r2)) == Some(
            (pv.0, c.skip(k as int) + r2),
        ));
        assert(c + r2 =~= c.take(k as int) + (c.skip(k as int) + r2));
        lemma_flow_frame(c.skip(k as int), r1, r2, end1, end2);
        assert(spec_flow(c.skip(k as int) + r2, end2) == Some((pf.0, r2)));
        assert((c + r2)[0] == c[0]);
        assert(is_value_start(c[0].kind()));
        assert(c[0].kind() != end2);
        assert((c.skip(k as int) + r2).len() < (c + r2).len());
        assert(spec_flow(c + r2, end2) == Some((pv.0 + pf.0, r2)));
    }
}

/// Round trip on nesting: a fragment that parses as a bare flow, wrapped
/// in braces, parses as a single internal-flow value whose inner sequence
/// is exactly the bare parse, whatever delimited stream follows.
pub proof fn lemma_internal_flow_round_trip(
    f: Seq<TokM>,
    r1: Seq<TokM>,
    end1: TokenType,
    r: Seq<TokM>,
)
    requires
        spec_flow(f + r1, end1) is Some,
        spec_flow(f + r1, end1)->Some_0.1 == r1,
        !is_value_start(TokenType::RBRACE),
    ensures
        spec_value(seq![TokM::Kw(TokenType::LBRACE)] + f + seq![TokM::Kw(TokenType::RBRACE)] + r)
            == Some((seq![ValueM::Flow(spec_flow(f + r1, end1)->Some_0.0)], r)),
{
    let rb = seq![TokM::Kw(TokenType::RBRACE)] + r;
    lemma_flow_frame(f, r1, rb, end1, TokenType::RBRACE);
    let ts = seq![TokM::Kw(TokenType::LBRACE)] + f + seq![TokM::Kw(TokenType::RBRACE)] + r;
    assert(ts[0] == TokM::Kw(TokenType::LBRACE));
    assert(ts.drop_first() =~= f + rb);
    assert(rb.drop_first() =~= r);
}

/// Grouping is transparent: two value fragments wrapped in parentheses
/// splice into the enclosing flow exactly as the two fragments written
/// directly, whatever `end`-delimited stream follows.
pub proof fn lemma_group_transparent(
    c1: Seq<TokM>,
    c2: Seq<TokM>,
    ra: Seq<TokM>,
    rb: Seq<TokM>,
    r: Seq<TokM>,
    end: TokenType,
)
    requires
        spec_value(c1 + ra) is Some,
        spec_value(c1 + ra)->Some_0.1 == ra,
        spec_value(c2 + rb) is Some,
        spec_value(c2 + rb)->Some_0.1 == rb,
        r.len() > 0,
        r[0].kind() == end,
        !is_value_start(end),
    ensures
        spec_flow(seq![TokM::Kw(TokenType::LPAREN)] + c1 + c2 + seq![TokM::Kw(TokenType::RPAREN)]
            + r, end) == spec_flow(c1 + c2 + r, end),
        spec_flow(c1 + c2 + r, end) == Some(
            (spec_value(c1 + ra)->Some_0.0 + spec_value(c2 + rb)->Some_0.0, r),
        ),
{
    let vs1 = spec_value(c1 + ra)->Some_0.0;
    let vs2 = spec_value(c2 + rb)->Some_0.0;
    lemma_spec_value_shrinks(c1 + ra);
    lemma_spec_value_shrinks(c2 + rb);
    assert(c1.len() >= 1);
    assert(c2.len() >= 1);

    // The two fragments written directly, before any delimited tail.
    lemma_value_frame(c2, rb, r);
    assert(spec_value(c2 + r) == Some((vs2, r)));
    assert(spec_flow(r, end) == Some((Seq::<ValueM>::empty(), r)));
    assert((c2 + r)[0] == c2[0]);
    assert(is_value_start(c2[0].kind())) by {
        if !is_value_start((c2 + rb)[0].kind()) {
            assert(spec_value(c2 + rb) is None);
        }
    }
    assert(spec_flow(c2 + r, end) == Some((vs2 + Seq::<ValueM>::empty(), r)));
    assert(vs2 + Seq::<ValueM>::empty() =~= vs2);
    lemma_value_frame(c1, ra, c2 + r);
    assert(spec_value(c1 + (c2 + r)) == Some((vs1, c2 + r)));
    assert(c1 + c2 + r =~= c1 + (c2 + r));
    assert((c1 + c2 + r)[0] == c1[0]);
    assert(is_value_start(c1[0].kind())) by {
        if !is_value_start((c1 + ra)[0].kind()) {
            assert(spec_value(c1 + ra) is None);
        }
    }
    assert(spec_flow(c1 + c2 + r, end) == Some((vs1 + vs2, r)));

    // The same two fragments wrapped in parentheses.
    let rp = seq![TokM::Kw(TokenType::RPAREN)] + r;
    assert(rp[0].kind() == TokenType::RPAREN);
    assert(spec_flow(rp, TokenType::RPAREN) == Some((Seq::<ValueM>::empty(), rp)));
    lemma_value_frame(c2, rb, rp);
    assert(spec_value(c2 + rp) == Some((vs2, rp)));
    assert((c2 + rp)[0] == c2[0]);
    assert(spec_flow(c2 + rp, TokenType::RPAREN) == Some((vs2 + Seq::<ValueM>::empty(), rp)));
    lemma_value_frame(c1, ra, c2 + rp);
    assert(spec_value(c1 + (c2 + rp)) == Some((vs1, c2 + rp)));
    assert((c1 + (c2 + rp))[0] == c1[0]);
    assert(spec_flow(c1 + (c2 + rp), TokenType::RPAREN) == Some((vs1 + vs2, rp)));

    let ts = seq![TokM::Kw(TokenType::LPAREN)] + c1 + c2 + seq![TokM::Kw(TokenType::RPAREN)] + r;
    assert(ts[0] == TokM::Kw(TokenType::LPAREN));
    assert(ts.drop_first() =~= c1 + (c2 + rp));
    assert(rp.drop_first() =~= r);
    assert(spec_value(ts) == Some((vs1 + vs2, r)));
    assert(spec_flow(r, end) == Some((Seq::<ValueM>::empty(), r)));
    assert((vs1 + vs2) + Seq::<ValueM>::empty() =~= vs1 + vs2);
    assert(spec_flow(ts, end) == Some((vs1 + vs2, r)));
}

/// Keyword precedence: an identifier-shaped run whose raw text spells a
/// keyword is always classified as that keyword, never as a name literal.
pub proof fn lemma_keyword_precedence(s: Seq<char>, pos: nat, k: TokenType)
    requires
        pos <= s.len(),
        skip_ws(s, pos) < s.len(),
        is_name_start_char(s[skip_ws(s, pos) as int]),
        spec_keyword(
            s.subrange(skip_ws(s, pos) as int, scan_name_end(s, skip_ws(s, pos)) as int),
        ) == Some(k),
    ensures
        next_tok(s, pos) == Some((TokM::Kw(k), scan_name_end(s, skip_ws(s, pos)))),
{
}

/// All characters of a run are insignificant whitespace.
pub open spec fn all_ws(w: Seq<char>) -> bool {
    forall|i: int| 0 <= i < w.len() ==> is_ws_char(#[trigger] w[i])
}

/// Skipping whitespace passes over any fully-whitespace stretch.
proof fn lemma_skip_ws_through(s: Seq<char>, i: nat, j: nat)
    requires
        i <= j <= s.len(),
        forall|m: int| i <= m < j ==> is_ws_char(#[trigger] s[m]),
    ensures
        skip_ws(s, i) == skip_ws(s, j),
    decreases j - i,
{
    if i < j {
        lemma_skip_ws_through(s, i + 1, j);
    }
}

/// Tokenization is the same from anywhere inside a whitespace run: the
/// token stream depends only on the text from the first significant
/// character on.
pub proof fn lemma_toks_from_ws_prefix(s: Seq<char>, i: nat, j: nat)
    requires
        i <= j <= s.len(),
        forall|m: int| i <= m < j ==> is_ws_char(#[trigger] s[m]),
    ensures
        toks_from(s, i) == toks_from(s, j),
{
    lemma_skip_ws_through(s, i, j);
    assert(next_tok(s, i) == next_tok(s, j));
    lemma_next_tok_advances(s, i);
    lemma_skip_ws_bounds(s, j);
    match next_tok(s, i) {
        None => {},
        Some((t, p2)) => {
            if t != TokM::End {
                assert(skip_ws(s, i) < p2);
                assert(j <= skip_ws(s, j));
            }
        },
    }
}

/// Skipping whitespace is unmoved by any text standing before the
/// cursor.
proof fn lemma_skip_ws_shift(c: Seq<char>, s: Seq<char>, p: nat)
    requires
        p <= s.len(),
    ensures
        skip_ws(c + s, c.len() + p) == c.len() + skip_ws(s, p),
    decreases s.len() - p,
{
    if p < s.len() {
        assert((c + s)[(c.len() + p) as int] == s[p as int]);
        if is_ws_char(s[p as int]) {
            lemma_skip_ws_shift(c, s, p + 1);
        }
    }
}

/// The identifier-name scan is unmoved by any text standing before the
/// cursor.
proof fn lemma_scan_name_shift(c: Seq<char>, s: Seq<char>, p: nat)
    requires
        p <= s.len(),
    ensures
        scan_name_end(c + s, c.len() + p) == c.len() + scan_name_end(s, p),
    decreases s.len() - p,
{
    if p < s.len() {
        assert((c + s)[(c.len() + p) as int] == s[p as int]);
        if is_name_char(s[p as int]) {
            lemma_scan_name_shift(c, s, p + 1);
        }
    }
}

/// The digit scan is unmoved by any text standing before the cursor.
proof fn lemma_scan_digits_shift(c: Seq<char>, s: Seq<char>, p: nat)
    requires
        p <= s.len(),
    ensures
        scan_digits_end(c + s, c.len() + p) == c.len() + scan_digits_end(s, p),
    decreases s.len() - p,
{
    if p < s.len() {
        assert((c + s)[(c.len() + p) as int] == s[p as int]);
        if is_digit_char(s[p as int]) {
            lemma_scan_digits_shift(c, s, p + 1);
        }
    }
}

/// The closing-quote search is unmoved by any text standing before the
/// cursor.
proof fn lemma_find_quote_shift(c: Seq<char>, s: Seq<char>, p: nat)
    requires
        p <= s.len(),
    ensures
        (match find_quote(s, p) {
            Some(q) => find_quote(c + s, c.len() + p) == Some((c.len() + q) as nat),
            None => find_quote(c + s, c.len() + p) is None,
        }),
    decreases s.len() - p,
{
    if p < s.len() {
        assert((c + s)[(c.len() + p) as int] == s[p as int]);
        if s[p as int] != '"' {
            lemma_find_quote_shift(c, s, p + 1);
        }
    }
}

/// The next token is the same token, at a shifted position, whatever
/// text stands before the cursor.
proof fn lemma_next_tok_shift(c: Seq<char>, s: Seq<char>, p: nat)
    requires
        p <= s.len(),
    ensures
        (match next_tok(s, p) {
            Some((t, e)) => next_tok(c + s, c.len() + p) == Some((t, (c.len() + e) as nat)),
            None => next_tok(c + s, c.len() + p) is None,
        }),
{
    lemma_skip_ws_shift(c, s, p);
    lemma_skip_ws_bounds(s, p);
    let q = skip_ws(s, p);
    if q < s.len() {
        assert((c + s)[(c.len() + q) as int] == s[q as int]);
        let ch = s[q as int];
        if is_name_start_char(ch) {
            lemma_scan_name_shift(c, s, q);
            lemma_scan_name_lower(s, q);
            assert((c + s).subrange(
                (c.len() + q) as int,
                (c.len() + scan_name_end(s, q)) as int,
            ) =~= s.subrange(q as int, scan_name_end(s, q) as int));
        } else if is_digit_char(ch) {
            lemma_scan_digits_shift(c, s, q);
            lemma_scan_digits_lower(s, q);
            assert((c + s).subrange(
                (c.len() + q) as int,
                (c.len() + scan_digits_end(s, q)) as int,
            ) =~= s.subrange(q as int, scan_digits_end(s, q) as int));
        } else if ch == '"' {
            lemma_find_quote_shift(c, s, q + 1);
            lemma_find_quote_bounds(s, q + 1);
            match find_quote(s, q + 1) {
                Some(fq) => {
                    assert((c + s).subrange(
                        (c.len() + q) as int + 1,
                        (c.len() + fq) as int,
                    ) =~= s.subrange(q as int + 1, fq as int));
                },
                None => {},
            }
        }
    }
}

/// The token stream is the same stream whatever text stands before the
/// cursor.
proof fn lemma_toks_from_shift(c: Seq<char>, s: Seq<char>, p: nat)
    requires
        p <= s.len(),
    ensures
        toks_from(c + s, c.len() + p) == toks_from(s, p),
    decreases s.len() - p,
{
    lemma_next_tok_shift(c, s, p);
    match next_tok(s, p) {
        None => {},
        Some((t, e)) => {
            if t != TokM::End {
                lemma_next_tok_advances(s, p);
                lemma_skip_ws_bounds(s, p);
                if p < e <= s.len() {
                    lemma_toks_from_shift(c, s, e);
                }
            }
        },
    }
}

/// Whitespace insignificance: inserting (or removing) a run of
/// whitespace in front of the remaining input never changes the token
/// stream, and therefore never changes the resulting tree. Every gap
/// between tokens is the front of the remaining input when the tokenizer
/// reaches it, so this covers every run of whitespace between tokens.
pub proof fn lemma_ws_insertion(w: Seq<char>, s: Seq<char>)
    requires
        all_ws(w),
    ensures
        toks_from(w + s, 0) == toks_from(s, 0),
{
    assert forall|m: int| 0 <= m < w.len() implies is_ws_char(#[trigger] (w + s)[m]) by {
        assert((w + s)[m] == w[m]);
    }
    lemma_toks_from_ws_prefix(w + s, 0, w.len());
    lemma_toks_from_shift(w, s, 0);
    assert(toks_from(w + s, w.len()) == toks_from(s, 0));
}

} // verus!
