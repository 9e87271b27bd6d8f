//! Token recognizer stage.
//!
//! The recognizer consumes the decoder's scalar values one at a time and
//! produces tokens by maximal munch: a character that could begin a
//! two-character symbol is held as a pending prefix until the next character
//! decides the match, and text spans grow until a character that cannot
//! continue them arrives; that boundary character then begins the next token
//! within the same step. Because undecided input is always held rather than
//! guessed at, tokenization never depends on where the incoming stream was
//! cut ([`lemma_recognizer_chunk_invariance`]).

use vstd::prelude::*;
use crate::interner::StringInterner;
use crate::interner::insert_view;
use crate::interner::lemma_interner_round_trip;
use crate::token::LexError;
use crate::token::Symbol;
use crate::token::Token;
use crate::token::TokenModel;
use crate::token::lemma_prefix_of_trans;
use crate::token::lemma_tokens_match_concat;
use crate::token::token_matches;
use crate::token::tokens_match;

verus! {

/// Whitespace separates tokens and is itself no token.
pub open spec fn is_space(c: char) -> bool {
    c == ' ' || c == '\t' || c == '\n' || c == '\r'
}

/// Characters that make up a text span: ASCII letters, digits, underscore,
/// and every scalar value beyond ASCII.
pub open spec fn is_ident_char(c: char) -> bool {
    let u = c as u32;
    ||| (0x61 <= u && u <= 0x7a)
    ||| (0x41 <= u && u <= 0x5a)
    ||| (0x30 <= u && u <= 0x39)
    ||| u == 0x5f
    ||| u >= 0x80
}

/// Characters that might begin a two-character symbol, so that seeing one
/// demands a lookahead before a token can be finalized.
pub open spec fn is_prefix_char(c: char) -> bool {
    c == '=' || c == '<' || c == '>' || c == '&' || c == '|' || c == '!'
}

/// The single-character symbol a lone occurrence of a prefix character means.
pub open spec fn prefix_symbol(c: char) -> Symbol {
    if c == '=' {
        Symbol::Eq
    } else if c == '<' {
        Symbol::Lt
    } else if c == '>' {
        Symbol::Gt
    } else if c == '&' {
        Symbol::And
    } else if c == '|' {
        Symbol::Or
    } else {
        Symbol::Not
    }
}

/// The symbol a single character means on its own, when it means one.
pub open spec fn sym1(c: char) -> Option<Symbol> {
    if c == '=' {
        Some(Symbol::Eq)
    } else if c == '<' {
        Some(Symbol::Lt)
    } else if c == '>' {
        Some(Symbol::Gt)
    } else if c == '&' {
        Some(Symbol::And)
    } else if c == '|' {
        Some(Symbol::Or)
    } else if c == '!' {
        Some(Symbol::Not)
    } else if c == '~' {
        Some(Symbol::Tilde)
    } else if c == '@' {
        Some(Symbol::At)
    } else if c == '.' {
        Some(Symbol::Dot)
    } else if c == ',' {
        Some(Symbol::Comma)
    } else if c == ';' {
        Some(Symbol::Semi)
    } else if c == ':' {
        Some(Symbol::Colon)
    } else if c == '#' {
        Some(Symbol::Pound)
    } else if c == '$' {
        Some(Symbol::Dollar)
    } else if c == '?' {
        Some(Symbol::Question)
    } else if c == '\'' {
        Some(Symbol::Quote)
    } else if c == '{' {
        Some(Symbol::OpenBrace)
    } else if c == '}' {
        Some(Symbol::ClosingBrace)
    } else if c == '(' {
        Some(Symbol::OpenParen)
    } else if c == ')' {
        Some(Symbol::ClosingParen)
    } else if c == '[' {
        Some(Symbol::OpenBracket)
    } else if c == ']' {
        Some(Symbol::ClosingBracket)
    } else if c == '+' {
        Some(Symbol::Plus)
    } else if c == '-' {
        Some(Symbol::Minus)
    } else if c == '*' {
        Some(Symbol::Star)
    } else if c == '/' {
        Some(Symbol::Slash)
    } else if c == '%' {
        Some(Symbol::Percent)
    } else if c == '^' {
        Some(Symbol::Caret)
    } else {
        None
    }
}

/// The two-character symbol spelled by the pair, when there is one: the
/// longer matches that maximal munch prefers over the single symbols.
pub open spec fn sym2(a: char, b: char) -> Option<Symbol> {
    if a == '=' && b == '=' {
        Some(Symbol::EqEq)
    } else if a == '<' && b == '=' {
        Some(Symbol::Le)
    } else if a == '>' && b == '=' {
        Some(Symbol::Ge)
    } else if a == '&' && b == '&' {
        Some(Symbol::AndAnd)
    } else if a == '|' && b == '|' {
        Some(Symbol::OrOr)
    } else if a == '!' && b == '=' {
        Some(Symbol::NotEq)
    } else {
        None
    }
}

/// Length of the longest prefix made of text-span characters.
pub open spec fn ident_span_len(chars: Seq<char>) -> nat
    decreases chars.len(),
{
    if chars.len() == 0 || !is_ident_char(chars[0]) {
        0
    } else {
        1 + ident_span_len(chars.drop_first())
    }
}

/// The first token of a finished character sequence under maximal munch, with
/// the number of characters it uses up (separating whitespace included). The
/// end of the sequence counts as end of stream, so a lone prefix character
/// becomes its single-character symbol.
#[verifier::ext_equal]
pub struct NextToken {
    pub token: TokenModel,
    pub used: int,
    pub error: Option<LexError>,
}

/// See [`NextToken`]. On an error, `token` is meaningless and `used` is 0.
pub open spec fn next_token(chars: Seq<char>) -> NextToken
    decreases chars.len(),
{
    if chars.len() == 0 {
        NextToken { token: TokenModel::Eof, used: 0, error: None }
    } else if is_space(chars[0]) {
        let r = next_token(chars.drop_first());
        NextToken { token: r.token, used: r.used + 1, error: r.error }
    } else if is_ident_char(chars[0]) {
        let n = ident_span_len(chars);
        NextToken { token: TokenModel::Text(chars.take(n as int)), used: n as int, error: None }
    } else if is_prefix_char(chars[0]) {
        if chars.len() >= 2 && sym2(chars[0], chars[1]) is Some {
            NextToken { token: TokenModel::Sym(sym2(chars[0], chars[1]).unwrap()), used: 2, error: None }
        } else {
            NextToken { token: TokenModel::Sym(prefix_symbol(chars[0])), used: 1, error: None }
        }
    } else {
        match sym1(chars[0]) {
            Some(s) => NextToken { token: TokenModel::Sym(s), used: 1, error: None },
            None => NextToken {
                token: TokenModel::Eof,
                used: 0,
                error: Some(LexError::UnrecognizedSymbol),
            },
        }
    }
}

proof fn lemma_next_token_used(chars: Seq<char>)
    ensures
        0 <= next_token(chars).used <= chars.len(),
        (next_token(chars).error is None && !(next_token(chars).token is Eof)) ==> next_token(
            chars,
        ).used >= 1,
    decreases chars.len(),
{
    if chars.len() == 0 {
    } else if is_space(chars[0]) {
        lemma_next_token_used(chars.drop_first());
    } else if is_ident_char(chars[0]) {
        lemma_ident_span_len_bound(chars);
    } else {
    }
}

proof fn lemma_ident_span_len_bound(chars: Seq<char>)
    ensures
        ident_span_len(chars) <= chars.len(),
        chars.len() > 0 && is_ident_char(chars[0]) ==> ident_span_len(chars) >= 1,
    decreases chars.len(),
{
    if chars.len() == 0 || !is_ident_char(chars[0]) {
    } else {
        lemma_ident_span_len_bound(chars.drop_first());
    }
}

/// Recognizer output for a whole character sequence: the tokens put out, the
/// characters of a token that has begun but not been finalized, and the error
/// that stopped recognition, if any.
#[verifier::ext_equal]
pub struct ScanState {
    pub tokens: Seq<TokenModel>,
    pub pending: Seq<char>,
    pub error: Option<LexError>,
}

/// Tokenizes a finished character sequence under maximal munch: token by
/// token via [`next_token`], ending in the end marker, or stopping at the
/// first error with the tokens already finalized.
pub open spec fn tokenize(chars: Seq<char>) -> ScanState
    decreases chars.len(),
    via tokenize_decreases
{
    let r = next_token(chars);
    if r.error is Some {
        ScanState { tokens: seq![], pending: seq![], error: r.error }
    } else if r.token is Eof {
        ScanState { tokens: seq![TokenModel::Eof], pending: seq![], error: None }
    } else {
        let rest = tokenize(chars.skip(r.used));
        ScanState { tokens: seq![r.token] + rest.tokens, pending: seq![], error: rest.error }
    }
}

#[via_fn]
proof fn tokenize_decreases(chars: Seq<char>) {
    lemma_next_token_used(chars);
}

/// The undecided characters the recognizer may hold between steps: nothing, a
/// single pending symbol prefix, or the open text span.
pub open spec fn pending_wf(p: Seq<char>) -> bool {
    ||| p.len() == 0
    ||| (p.len() == 1 && is_prefix_char(p[0]))
    ||| (p.len() >= 1 && forall|i: int| 0 <= i < p.len() ==> is_ident_char(p[i]))
}

/// One recognizer step on a character arriving with nothing held: it may
/// finalize a single-character symbol at once, start a prefix or text span,
/// pass over whitespace, or fail.
pub open spec fn rec_step_start(c: char) -> ScanState {
    if is_space(c) {
        ScanState { tokens: seq![], pending: seq![], error: None }
    } else if is_ident_char(c) || is_prefix_char(c) {
        ScanState { tokens: seq![], pending: seq![c], error: None }
    } else {
        match sym1(c) {
            Some(s) => ScanState { tokens: seq![TokenModel::Sym(s)], pending: seq![], error: None },
            None => ScanState {
                tokens: seq![],
                pending: seq![],
                error: Some(LexError::UnrecognizedSymbol),
            },
        }
    }
}

/// One recognizer step: `tokens` are the tokens this character finalizes (at
/// most two: a flushed span or prefix, then what the character itself
/// finalizes), `pending` what is held afterwards. A character that ends a
/// span or prefix also begins the next token within the same step.
pub open spec fn rec_step(pending: Seq<char>, c: char) -> ScanState {
    if pending.len() == 0 {
        rec_step_start(c)
    } else if pending.len() == 1 && is_prefix_char(pending[0]) {
        match sym2(pending[0], c) {
            Some(s) => ScanState { tokens: seq![TokenModel::Sym(s)], pending: seq![], error: None },
            None => {
                let r = rec_step_start(c);
                ScanState {
                    tokens: seq![TokenModel::Sym(prefix_symbol(pending[0]))] + r.tokens,
                    pending: r.pending,
                    error: r.error,
                }
            },
        }
    } else {
        if is_ident_char(c) {
            ScanState { tokens: seq![], pending: pending.push(c), error: None }
        } else {
            let r = rec_step_start(c);
            ScanState {
                tokens: seq![TokenModel::Text(pending)] + r.tokens,
                pending: r.pending,
                error: r.error,
            }
        }
    }
}

/// What end of stream flushes: the held prefix or span as a final token, then
/// the explicit end marker.
pub open spec fn rec_finish(pending: Seq<char>) -> Seq<TokenModel> {
    if pending.len() == 0 {
        seq![TokenModel::Eof]
    } else if pending.len() == 1 && is_prefix_char(pending[0]) {
        seq![TokenModel::Sym(prefix_symbol(pending[0])), TokenModel::Eof]
    } else {
        seq![TokenModel::Text(pending), TokenModel::Eof]
    }
}

/// One step at the level of accumulated output; a failed stream stays frozen.
pub open spec fn scan_step(st: ScanState, c: char) -> ScanState {
    if st.error is Some {
        st
    } else {
        let r = rec_step(st.pending, c);
        ScanState { tokens: st.tokens + r.tokens, pending: r.pending, error: r.error }
    }
}

/// The recognizer's state after consuming each character in order.
pub open spec fn scan_chars(st: ScanState, chars: Seq<char>) -> ScanState
    decreases chars.len(),
{
    if chars.len() == 0 {
        st
    } else {
        scan_chars(scan_step(st, chars[0]), chars.drop_first())
    }
}

/// The state of a recognizer that has consumed nothing.
pub open spec fn scan_start() -> ScanState {
    ScanState { tokens: seq![], pending: seq![], error: None }
}

/// End of stream at the level of the model: flush what is held.
pub open spec fn scan_finish(st: ScanState) -> ScanState {
    if st.error is Some {
        st
    } else {
        ScanState { tokens: st.tokens + rec_finish(st.pending), pending: seq![], error: None }
    }
}

/// A failed scan stays frozen whatever else arrives.
pub proof fn lemma_scan_chars_frozen(st: ScanState, chars: Seq<char>)
    requires
        st.error is Some,
    ensures
        scan_chars(st, chars) == st,
    decreases chars.len(),
{
    if chars.len() == 0 {
    } else {
        lemma_scan_chars_frozen(st, chars.drop_first());
    }
}

/// The tokens a scan appends depend only on what is held, not on the tokens
/// already put out: scanning from any state splits into the old tokens plus
/// the scan from the same held state with an empty output.
pub proof fn lemma_scan_tokens_shift(st: ScanState, cs: Seq<char>)
    ensures
        ({
            let base = ScanState { tokens: Seq::empty(), pending: st.pending, error: st.error };
            let a = scan_chars(st, cs);
            let b = scan_chars(base, cs);
            &&& a.tokens == st.tokens + b.tokens
            &&& a.pending == b.pending
            &&& a.error == b.error
        }),
    decreases cs.len(),
{
    let base = ScanState { tokens: Seq::empty(), pending: st.pending, error: st.error };
    if cs.len() == 0 {
        assert(st.tokens + base.tokens =~= st.tokens);
    } else {
        let c = cs[0];
        let rest = cs.drop_first();
        if st.error is Some {
            lemma_scan_chars_frozen(st, cs);
            lemma_scan_chars_frozen(base, cs);
            assert(st.tokens + base.tokens =~= st.tokens);
        } else {
            let r = rec_step(st.pending, c);
            let st1 = scan_step(st, c);
            let base1 = scan_step(base, c);
            assert(base1.tokens =~= r.tokens);
            assert(st1.pending == base1.pending && st1.error == base1.error);
            lemma_scan_tokens_shift(st1, rest);
            lemma_scan_tokens_shift(base1, rest);
            let inner = ScanState { tokens: Seq::empty(), pending: st1.pending, error: st1.error };
            assert(scan_chars(st, cs).tokens =~= st1.tokens + scan_chars(inner, rest).tokens);
            assert(scan_chars(base, cs).tokens =~= base1.tokens + scan_chars(inner, rest).tokens);
            assert(scan_chars(st, cs).tokens =~= st.tokens + scan_chars(base, cs).tokens);
        }
    }
}

pub proof fn lemma_ident_span_of_all(p: Seq<char>, rest: Seq<char>)
    requires
        forall|i: int| 0 <= i < p.len() ==> is_ident_char(p[i]),
        rest.len() == 0 || !is_ident_char(rest[0]),
    ensures
        ident_span_len(p + rest) == p.len(),
    decreases p.len(),
{
    let x = p + rest;
    if p.len() == 0 {
        assert(x =~= rest);
    } else {
        assert(x[0] == p[0]);
        assert(x.drop_first() =~= p.drop_first() + rest);
        lemma_ident_span_of_all(p.drop_first(), rest);
    }
}

/// Steps preserve the shape of what the recognizer may hold.
proof fn lemma_rec_step_wf(p: Seq<char>, c: char)
    requires
        pending_wf(p),
    ensures
        pending_wf(rec_step(p, c).pending),
{
    let r = rec_step(p, c);
    if p.len() == 0 {
    } else if p.len() == 1 && is_prefix_char(p[0]) {
    } else {
        if is_ident_char(c) {
            assert(forall|i: int|
                0 <= i < p.push(c).len() ==> is_ident_char(
                    #[trigger] p.push(c)[i],
                ));
        }
    }
}

/// The heart of the recognizer's correctness: running the machine over any
/// remaining characters from a well-formed held state and then flushing
/// produces exactly the batch tokenization of the held characters followed by
/// the remaining ones.
proof fn lemma_scan_from(t0: Seq<TokenModel>, p: Seq<char>, cs: Seq<char>)
    requires
        pending_wf(p),
    ensures
        ({
            let f = scan_finish(scan_chars(ScanState { tokens: t0, pending: p, error: None }, cs));
            let t = tokenize(p + cs);
            &&& f.tokens == t0 + t.tokens
            &&& f.error == t.error
        }),
    decreases cs.len(),
{
    let st = ScanState { tokens: t0, pending: p, error: None };
    if cs.len() == 0 {
        assert(p + cs =~= p);
        if p.len() == 0 {
            assert(tokenize(p).tokens =~= rec_finish(p));
        } else if p.len() == 1 && is_prefix_char(p[0]) {
            assert(next_token(p).used == 1);
            assert(p.skip(1) =~= Seq::<char>::empty());
            assert(next_token(Seq::<char>::empty()).token is Eof);
            assert(tokenize(Seq::<char>::empty()).tokens =~= seq![TokenModel::Eof]);
            assert(tokenize(p).tokens =~= rec_finish(p));
        } else {
            lemma_ident_span_of_all(p, Seq::<char>::empty());
            assert(p + Seq::<char>::empty() =~= p);
            assert(ident_span_len(p) == p.len());
            assert(p.take(p.len() as int) =~= p);
            assert(p.skip(p.len() as int) =~= Seq::<char>::empty());
            assert(next_token(Seq::<char>::empty()).token is Eof);
            assert(tokenize(Seq::<char>::empty()).tokens =~= seq![TokenModel::Eof]);
            assert(tokenize(p).tokens =~= rec_finish(p));
        }
        assert(scan_finish(st).tokens =~= t0 + tokenize(p).tokens);
    } else {
        let c = cs[0];
        let cs1 = cs.drop_first();
        let r = rec_step(p, c);
        let st1 = scan_step(st, c);
        assert(st1.tokens == t0 + r.tokens && st1.pending == r.pending && st1.error == r.error);
        lemma_rec_step_wf(p, c);
        if r.error is Some {
            lemma_scan_chars_frozen(st1, cs1);
            lemma_tokenize_error(t0, p, cs, r);
        } else {
            lemma_scan_from(t0 + r.tokens, r.pending, cs1);
            lemma_tokenize_step(t0, p, cs, r);
        }
    }
}

/// In the error cases of a step, the batch tokenization of `p + cs` stops
/// with the same flushed tokens and the same error.
proof fn lemma_tokenize_error(t0: Seq<TokenModel>, p: Seq<char>, cs: Seq<char>, r: ScanState)
    requires
        pending_wf(p),
        cs.len() > 0,
        r == rec_step(p, cs[0]),
        r.error is Some,
    ensures
        tokenize(p + cs).tokens == r.tokens,
        tokenize(p + cs).error == r.error,
{
    let c = cs[0];
    let cs1 = cs.drop_first();
    let x = p + cs;
    assert(!is_space(c) && !is_ident_char(c) && !is_prefix_char(c) && sym1(c) is None);
    if p.len() == 0 {
        assert(x =~= cs);
        assert(next_token(cs).error is Some);
        assert(r.tokens =~= Seq::<TokenModel>::empty());
        assert(tokenize(x).tokens =~= r.tokens);
    } else if p.len() == 1 && is_prefix_char(p[0]) {
        assert(x[0] == p[0]);
        assert(x[1] == c);
        assert(next_token(x).used == 1);
        assert(next_token(x).token == TokenModel::Sym(prefix_symbol(p[0])));
        assert(x.skip(1) =~= cs);
        assert(next_token(cs).error is Some);
        assert(tokenize(cs).tokens =~= Seq::<TokenModel>::empty());
        assert(tokenize(x).tokens =~= seq![TokenModel::Sym(prefix_symbol(p[0]))]);
        assert(r.tokens =~= seq![TokenModel::Sym(prefix_symbol(p[0]))]);
    } else {
        assert(x[0] == p[0]);
        lemma_ident_span_of_all(p, cs);
        assert(ident_span_len(x) == p.len());
        assert(next_token(x).used == p.len());
        assert(x.take(p.len() as int) =~= p);
        assert(next_token(x).token == TokenModel::Text(p));
        assert(x.skip(p.len() as int) =~= cs);
        assert(next_token(cs).error is Some);
        assert(tokenize(cs).tokens =~= Seq::<TokenModel>::empty());
        assert(tokenize(x).tokens =~= seq![TokenModel::Text(p)]);
        assert(r.tokens =~= seq![TokenModel::Text(p)]);
    }
}

/// In the error-free cases of a step, the batch tokenization of `p + cs`
/// starts with the tokens the step finalizes and continues as the batch
/// tokenization of what is then held plus the rest.
proof fn lemma_tokenize_step(t0: Seq<TokenModel>, p: Seq<char>, cs: Seq<char>, r: ScanState)
    requires
        pending_wf(p),
        cs.len() > 0,
        r == rec_step(p, cs[0]),
        r.error is None,
    ensures
        tokenize(p + cs).tokens == r.tokens + tokenize(r.pending + cs.drop_first()).tokens,
        tokenize(p + cs).error == tokenize(r.pending + cs.drop_first()).error,
{
    let c = cs[0];
    let cs1 = cs.drop_first();
    let x = p + cs;
    if p.len() == 0 {
        assert(x =~= cs);
        lemma_tokenize_start(cs, r);
    } else if p.len() == 1 && is_prefix_char(p[0]) {
        assert(x[0] == p[0]);
        assert(x[1] == c);
        match sym2(p[0], c) {
            Some(s) => {
                assert(next_token(x).used == 2);
                assert(next_token(x).token == TokenModel::Sym(s));
                assert(x.skip(2) =~= cs1);
                assert(r.pending + cs1 =~= cs1);
                assert(tokenize(x).tokens =~= r.tokens + tokenize(cs1).tokens);
            },
            None => {
                assert(next_token(x).used == 1);
                assert(next_token(x).token == TokenModel::Sym(prefix_symbol(p[0])));
                assert(x.skip(1) =~= cs);
                let r0 = rec_step_start(c);
                lemma_tokenize_start(cs, r0);
                assert(tokenize(x).tokens =~= r.tokens + tokenize(r.pending + cs1).tokens);
            },
        }
    } else {
        if is_ident_char(c) {
            assert(x =~= p.push(c) + cs1);
            assert(r.tokens =~= Seq::<TokenModel>::empty());
            assert(r.tokens + tokenize(r.pending + cs1).tokens =~= tokenize(x).tokens);
        } else {
            assert(x[0] == p[0]);
            lemma_ident_span_of_all(p, cs);
            assert(ident_span_len(x) == p.len());
            assert(next_token(x).used == p.len());
            assert(x.take(p.len() as int) =~= p);
            assert(next_token(x).token == TokenModel::Text(p));
            assert(x.skip(p.len() as int) =~= cs);
            let r0 = rec_step_start(c);
            lemma_tokenize_start(cs, r0);
            assert(tokenize(x).tokens =~= r.tokens + tokenize(r.pending + cs1).tokens);
        }
    }
}

/// [`lemma_tokenize_step`] for a step from the empty held state.
proof fn lemma_tokenize_start(cs: Seq<char>, r: ScanState)
    requires
        cs.len() > 0,
        r == rec_step_start(cs[0]),
        r.error is None,
    ensures
        tokenize(cs).tokens == r.tokens + tokenize(r.pending + cs.drop_first()).tokens,
        tokenize(cs).error == tokenize(r.pending + cs.drop_first()).error,
{
    let c = cs[0];
    let cs1 = cs.drop_first();
    if is_space(c) {
        assert(r.pending + cs1 =~= cs1);
        let rn = next_token(cs1);
        assert(next_token(cs).used == rn.used + 1);
        assert(next_token(cs).token == rn.token);
        assert(next_token(cs).error == rn.error);
        if rn.error is Some {
            assert(tokenize(cs).tokens =~= tokenize(cs1).tokens);
        } else if rn.token is Eof {
            assert(tokenize(cs).tokens =~= tokenize(cs1).tokens);
        } else {
            lemma_next_token_used(cs1);
            assert(cs.skip(next_token(cs).used) =~= cs1.skip(rn.used));
            assert(tokenize(cs).tokens =~= tokenize(cs1).tokens);
        }
        assert(r.tokens + tokenize(cs1).tokens =~= tokenize(cs1).tokens);
    } else if is_ident_char(c) || is_prefix_char(c) {
        assert(r.pending + cs1 =~= cs);
        assert(r.tokens + tokenize(cs).tokens =~= tokenize(cs).tokens);
    } else {
        match sym1(c) {
            Some(s) => {
                assert(next_token(cs).used == 1);
                assert(next_token(cs).token == TokenModel::Sym(s));
                assert(cs.skip(1) =~= cs1);
                assert(r.pending + cs1 =~= cs1);
                assert(tokenize(cs).tokens =~= r.tokens + tokenize(cs1).tokens);
            },
            None => {
                assert(false);
            },
        }
    }
}

/// Running the recognizer over concatenated input is running it over the
/// parts in turn.
pub proof fn lemma_scan_chars_app(st: ScanState, a: Seq<char>, b: Seq<char>)
    ensures
        scan_chars(st, a + b) == scan_chars(scan_chars(st, a), b),
    decreases a.len(),
{
    if a.len() == 0 {
        assert(a + b =~= b);
    } else {
        assert((a + b)[0] == a[0]);
        assert((a + b).drop_first() =~= a.drop_first() + b);
        lemma_scan_chars_app(scan_step(st, a[0]), a.drop_first(), b);
    }
}

/// The interner contents after storing the spans of the given tokens, in
/// order; fixed symbols and the end marker leave it unchanged.
pub open spec fn intern_spans(iv: Seq<Seq<char>>, ms: Seq<TokenModel>) -> Seq<Seq<char>>
    decreases ms.len(),
{
    if ms.len() == 0 {
        iv
    } else {
        let iv1 = match ms[0] {
            TokenModel::Text(span) => insert_view(iv, span),
            _ => iv,
        };
        intern_spans(iv1, ms.drop_first())
    }
}

pub proof fn lemma_intern_spans_app(iv: Seq<Seq<char>>, m1: Seq<TokenModel>, m2: Seq<TokenModel>)
    ensures
        intern_spans(iv, m1 + m2) == intern_spans(intern_spans(iv, m1), m2),
    decreases m1.len(),
{
    if m1.len() == 0 {
        assert(m1 + m2 =~= m2);
    } else {
        assert((m1 + m2)[0] == m1[0]);
        assert((m1 + m2).drop_first() =~= m1.drop_first() + m2);
        let iv1 = match m1[0] {
            TokenModel::Text(span) => insert_view(iv, span),
            _ => iv,
        };
        lemma_intern_spans_app(iv1, m1.drop_first(), m2);
    }
}

/// Interning only appends: the old contents stay in place.
pub proof fn lemma_intern_spans_prefix(iv: Seq<Seq<char>>, ms: Seq<TokenModel>)
    ensures
        iv.is_prefix_of(intern_spans(iv, ms)),
    decreases ms.len(),
{
    if ms.len() == 0 {
        assert(iv.is_prefix_of(iv));
    } else {
        let iv1 = match ms[0] {
            TokenModel::Text(span) => insert_view(iv, span),
            _ => iv,
        };
        assert(iv.is_prefix_of(iv1));
        lemma_intern_spans_prefix(iv1, ms.drop_first());
        let iv2 = intern_spans(iv1, ms.drop_first());
        assert(iv1 =~= iv2.subrange(0, iv1.len() as int));
        assert(iv =~= iv2.subrange(0, iv.len() as int));
    }
}

/// Tokens without a text span leave the interner contents alone.
pub proof fn lemma_intern_spans_no_text(iv: Seq<Seq<char>>, ms: Seq<TokenModel>)
    requires
        forall|i: int| 0 <= i < ms.len() ==> !(#[trigger] ms[i] is Text),
    ensures
        intern_spans(iv, ms) == iv,
    decreases ms.len(),
{
    if ms.len() == 0 {
    } else {
        assert(!(ms[0] is Text));
        assert(forall|i: int| 0 <= i < ms.drop_first().len() ==> ms.drop_first()[i] == ms[i + 1]);
        lemma_intern_spans_no_text(iv, ms.drop_first());
    }
}

/// Chunk invariance of the recognizer: feeding the scalar values one at a
/// time — in particular, across any chunking of the byte stream — and then
/// flushing at end of stream yields exactly the batch tokenization of the
/// whole sequence. Held prefixes are never finalized early, so the cut
/// points cannot change the tokens.
pub proof fn lemma_recognizer_chunk_invariance(chars: Seq<char>)
    ensures
        scan_finish(scan_chars(scan_start(), chars)).tokens == tokenize(chars).tokens,
        scan_finish(scan_chars(scan_start(), chars)).error == tokenize(chars).error,
{
    lemma_scan_from(seq![], seq![], chars);
    assert(Seq::<char>::empty() + chars =~= chars);
    assert(seq![] + tokenize(chars).tokens =~= tokenize(chars).tokens);
}

/// Exec mirror of [`is_space`].
pub(crate) fn is_space_char(c: char) -> (r: bool)
    ensures
        r == is_space(c),
{
    c == ' ' || c == '\t' || c == '\n' || c == '\r'
}

/// Exec mirror of [`is_ident_char`].
pub(crate) fn is_ident(c: char) -> (r: bool)
    ensures
        r == is_ident_char(c),
{
    let u = c as u32;
    (u >= 0x61 && u <= 0x7a) || (u >= 0x41 && u <= 0x5a) || (u >= 0x30 && u <= 0x39) || u == 0x5f
        || u >= 0x80
}

/// Exec mirror of [`is_prefix_char`].
pub(crate) fn is_prefix(c: char) -> (r: bool)
    ensures
        r == is_prefix_char(c),
{
    c == '=' || c == '<' || c == '>' || c == '&' || c == '|' || c == '!'
}

/// Exec mirror of [`prefix_symbol`].
pub(crate) fn prefix_symbol_of(c: char) -> (r: Symbol)
    ensures
        r == prefix_symbol(c),
{
    if c == '=' {
        Symbol::Eq
    } else if c == '<' {
        Symbol::Lt
    } else if c == '>' {
        Symbol::Gt
    } else if c == '&' {
        Symbol::And
    } else if c == '|' {
        Symbol::Or
    } else {
        Symbol::Not
    }
}

/// Exec mirror of [`sym1`].
pub(crate) fn sym1_of(c: char) -> (r: Option<Symbol>)
    ensures
        r == sym1(c),
{
    if c == '=' {
        Some(Symbol::Eq)
    } else if c == '<' {
        Some(Symbol::Lt)
    } else if c == '>' {
        Some(Symbol::Gt)
    } else if c == '&' {
        Some(Symbol::And)
    } else if c == '|' {
        Some(Symbol::Or)
    } else if c == '!' {
        Some(Symbol::Not)
    } else if c == '~' {
        Some(Symbol::Tilde)
    } else if c == '@' {
        Some(Symbol::At)
    } else if c == '.' {
        Some(Symbol::Dot)
    } else if c == ',' {
        Some(Symbol::Comma)
    } else if c == ';' {
        Some(Symbol::Semi)
    } else if c == ':' {
        Some(Symbol::Colon)
    } else if c == '#' {
        Some(Symbol::Pound)
    } else if c == '$' {
        Some(Symbol::Dollar)
    } else if c == '?' {
        Some(Symbol::Question)
    } else if c == '\'' {
        Some(Symbol::Quote)
    } else if c == '{' {
        Some(Symbol::OpenBrace)
    } else if c == '}' {
        Some(Symbol::ClosingBrace)
    } else if c == '(' {
        Some(Symbol::OpenParen)
    } else if c == ')' {
        Some(Symbol::ClosingParen)
    } else if c == '[' {
        Some(Symbol::OpenBracket)
    } else if c == ']' {
        Some(Symbol::ClosingBracket)
    } else if c == '+' {
        Some(Symbol::Plus)
    } else if c == '-' {
        Some(Symbol::Minus)
    } else if c == '*' {
        Some(Symbol::Star)
    } else if c == '/' {
        Some(Symbol::Slash)
    } else if c == '%' {
        Some(Symbol::Percent)
    } else if c == '^' {
        Some(Symbol::Caret)
    } else {
        None
    }
}

/// Exec mirror of [`sym2`].
pub(crate) fn sym2_of(a: char, b: char) -> (r: Option<Symbol>)
    ensures
        r == sym2(a, b),
{
    if a == '=' && b == '=' {
        Some(Symbol::EqEq)
    } else if a == '<' && b == '=' {
        Some(Symbol::Le)
    } else if a == '>' && b == '=' {
        Some(Symbol::Ge)
    } else if a == '&' && b == '&' {
        Some(Symbol::AndAnd)
    } else if a == '|' && b == '|' {
        Some(Symbol::OrOr)
    } else if a == '!' && b == '=' {
        Some(Symbol::NotEq)
    } else {
        None
    }
}

/// The recognizer stage: an explicit state machine in place of a suspended
/// call stack. Between resumes it holds at most one undecided symbol prefix
/// or one open text span, plus the error that permanently stopped the stream.
pub struct Recognizer {
    prefix: Option<char>,
    span: Vec<char>,
    failed: Option<LexError>,
}

impl Recognizer {
    /// The characters consumed but not yet attributed to a finalized token.
    pub closed spec fn pending(&self) -> Seq<char> {
        match self.prefix {
            Some(c) => seq![c],
            None => self.span@,
        }
    }

    /// The error that stopped this stream, if one was raised.
    pub closed spec fn failure(&self) -> Option<LexError> {
        self.failed
    }

    /// A held prefix really is a symbol prefix, a held span really is made of
    /// text-span characters, and never both at once.
    pub closed spec fn wf(&self) -> bool {
        &&& (self.prefix matches Some(c) ==> is_prefix_char(c) && self.span@.len() == 0)
        &&& (forall|i: int| 0 <= i < self.span@.len() ==> is_ident_char(#[trigger] self.span@[i]))
    }

    /// A recognizer that has consumed nothing.
    pub fn new() -> (r: Recognizer)
        ensures
            r.wf(),
            r.pending() == Seq::<char>::empty(),
            r.failure() is None,
    {
        let r = Recognizer { prefix: None, span: Vec::new(), failed: None };
        proof {
            assert(r.pending() =~= Seq::<char>::empty());
        }
        r
    }

    /// Step on a character arriving with nothing held; see [`rec_step_start`].
    fn start_char(
        &mut self,
        interner: &mut StringInterner,
        out: &mut Vec<Token>,
        c: char,
    ) -> (r: Option<LexError>)
        requires
            old(self).wf(),
            old(self).failure() is None,
            old(self).pending() == Seq::<char>::empty(),
            old(interner).wf(),
        ensures
            final(self).wf(),
            final(interner).wf(),
            *final(interner) == *old(interner),
            ({
                let s = rec_step_start(c);
                &&& r == s.error
                &&& final(self).failure() == s.error
                &&& (s.error is None ==> final(self).pending() == s.pending)
                &&& final(out)@.len() == old(out)@.len() + s.tokens.len()
                &&& final(out)@.take(old(out)@.len() as int) == old(out)@
                &&& tokens_match(final(out)@.skip(old(out)@.len() as int), s.tokens, old(interner)@)
            }),
    {
        let ghost s = rec_step_start(c);
        let ghost o0 = out@;
        if is_space_char(c) {
            proof {
                assert(out@.take(o0.len() as int) =~= o0);
                assert(out@.skip(o0.len() as int) =~= Seq::<Token>::empty());
            }
            return None;
        }
        if is_ident(c) {
            self.span.push(c);
            proof {
                assert(self.pending() =~= seq![c]);
                assert(out@.take(o0.len() as int) =~= o0);
                assert(out@.skip(o0.len() as int) =~= Seq::<Token>::empty());
            }
            return None;
        }
        if is_prefix(c) {
            self.prefix = Some(c);
            proof {
                assert(self.pending() =~= seq![c]);
                assert(out@.take(o0.len() as int) =~= o0);
                assert(out@.skip(o0.len() as int) =~= Seq::<Token>::empty());
            }
            return None;
        }
        match sym1_of(c) {
            Some(sym) => {
                out.push(Token::Sym(sym));
                proof {
                    assert(out@.take(o0.len() as int) =~= o0);
                    assert(out@.skip(o0.len() as int) =~= seq![Token::Sym(sym)]);
                }
                None
            },
            None => {
                self.failed = Some(LexError::UnrecognizedSymbol);
                proof {
                    assert(out@.take(o0.len() as int) =~= o0);
                    assert(out@.skip(o0.len() as int) =~= Seq::<Token>::empty());
                }
                Some(LexError::UnrecognizedSymbol)
            },
        }
    }

    /// Consumes one scalar value from the decoder. The tokens it finalizes —
    /// at most two: a flushed span or prefix, then one the character itself
    /// completes — are appended to `out`, with text spans interned through
    /// `interner`. A character that ends a span or prefix also begins the
    /// next token within this same step, so nothing is ever re-read. After an
    /// error the same error is reported again and nothing more is consumed.
    pub fn push_char(
        &mut self,
        interner: &mut StringInterner,
        out: &mut Vec<Token>,
        c: char,
    ) -> (r: Option<LexError>)
        requires
            old(self).wf(),
            old(interner).wf(),
        ensures
            final(self).wf(),
            final(interner).wf(),
            old(interner)@.is_prefix_of(final(interner)@),
            old(self).failure() matches Some(e) ==> r == Some(e) && *final(self) == *old(self)
                && final(out)@ == old(out)@ && *final(interner) == *old(interner),
            old(self).failure() is None ==> ({
                let s = rec_step(old(self).pending(), c);
                &&& r == s.error
                &&& final(self).failure() == s.error
                &&& (s.error is None ==> final(self).pending() == s.pending)
                &&& final(out)@.len() == old(out)@.len() + s.tokens.len()
                &&& final(out)@.take(old(out)@.len() as int) == old(out)@
                &&& tokens_match(final(out)@.skip(old(out)@.len() as int), s.tokens, final(interner)@)
                &&& final(interner)@ == intern_spans(old(interner)@, s.tokens)
            }),
    {
        proof {
            assert(old(interner)@.is_prefix_of(old(interner)@));
        }
        if let Some(e) = self.failed {
            return Some(e);
        }
        let ghost p = self.pending();
        let ghost s = rec_step(p, c);
        let ghost o0 = out@;
        let ghost iv0 = interner@;
        if let Some(q) = self.prefix {
            proof {
                assert(p =~= seq![q]);
            }
            match sym2_of(q, c) {
                Some(sym) => {
                    self.prefix = None;
                    out.push(Token::Sym(sym));
                    proof {
                        assert(self.pending() =~= Seq::<char>::empty());
                        assert(out@.take(o0.len() as int) =~= o0);
                        assert(out@.skip(o0.len() as int) =~= seq![Token::Sym(sym)]);
                        lemma_intern_spans_no_text(iv0, s.tokens);
                    }
                    None
                },
                None => {
                    self.prefix = None;
                    let flush = Token::Sym(prefix_symbol_of(q));
                    out.push(flush);
                    proof {
                        assert(self.pending() =~= Seq::<char>::empty());
                    }
                    let ghost o1 = out@;
                    let r2 = self.start_char(interner, out, c);
                    proof {
                        let s0 = rec_step_start(c);
                        assert(s.tokens =~= seq![TokenModel::Sym(prefix_symbol(q))] + s0.tokens);
                        lemma_intern_spans_no_text(iv0, s.tokens);
                        assert(out@.take(o0.len() as int) =~= o0);
                        assert(out@.len() == o0.len() + s.tokens.len());
                        assert forall|i: int| 0 <= i < s.tokens.len() implies token_matches(
                            out@.skip(o0.len() as int)[i],
                            s.tokens[i],
                            interner@,
                        ) by {
                            if i == 0 {
                                assert(out@.skip(o0.len() as int)[0] == o1[o0.len() as int]);
                            } else {
                                assert(out@.skip(o0.len() as int)[i] == out@.skip(
                                    o1.len() as int,
                                )[i - 1]);
                                assert(token_matches(
                                    out@.skip(o1.len() as int)[i - 1],
                                    s0.tokens[i - 1],
                                    interner@,
                                ));
                            }
                        }
                    }
                    r2
                },
            }
        } else if self.span.len() > 0 {
            if is_ident(c) {
                self.span.push(c);
                proof {
                    assert(self.pending() =~= p.push(c));
                    assert(out@.take(o0.len() as int) =~= o0);
                    assert(out@.skip(o0.len() as int) =~= Seq::<Token>::empty());
                    lemma_intern_spans_no_text(iv0, s.tokens);
                }
                None
            } else {
                let h = interner.insert_chars(&self.span);
                let flush = Token::Text(h);
                out.push(flush);
                self.span.clear();
                proof {
                    assert(self.pending() =~= Seq::<char>::empty());
                    lemma_interner_round_trip(iv0, p, Seq::<Seq<char>>::empty());
                    assert(interner@[h as int] == p);
                }
                let ghost iv1 = interner@;
                let ghost o1 = out@;
                let r2 = self.start_char(interner, out, c);
                proof {
                    let s0 = rec_step_start(c);
                    assert(s.tokens =~= seq![TokenModel::Text(p)] + s0.tokens);
                    assert(s.tokens.drop_first() =~= s0.tokens);
                    lemma_intern_spans_no_text(iv1, s0.tokens);
                    assert(intern_spans(iv0, s.tokens) == iv1);
                    assert(out@.take(o0.len() as int) =~= o0);
                    assert(out@.len() == o0.len() + s.tokens.len());
                    assert(iv0.is_prefix_of(iv1));
                    assert forall|i: int| 0 <= i < s.tokens.len() implies token_matches(
                        out@.skip(o0.len() as int)[i],
                        s.tokens[i],
                        interner@,
                    ) by {
                        if i == 0 {
                            assert(out@.skip(o0.len() as int)[0] == o1[o0.len() as int]);
                            assert(token_matches(flush, TokenModel::Text(p), iv1));
                        } else {
                            assert(out@.skip(o0.len() as int)[i] == out@.skip(
                                o1.len() as int,
                            )[i - 1]);
                            assert(token_matches(
                                out@.skip(o1.len() as int)[i - 1],
                                s0.tokens[i - 1],
                                interner@,
                            ));
                        }
                    }
                }
                r2
            }
        } else {
            proof {
                assert(p =~= Seq::<char>::empty());
            }
            let r2 = self.start_char(interner, out, c);
            proof {
                let s0 = rec_step_start(c);
                assert(s =~= s0);
                lemma_intern_spans_no_text(iv0, s.tokens);
            }
            r2
        }
    }

    /// Signals permanent end of stream: the held span or prefix is flushed as
    /// a final token, then the explicit end marker is appended. On a stream
    /// that already failed, the error is reported instead.
    pub fn finish(&mut self, interner: &mut StringInterner, out: &mut Vec<Token>) -> (r: Option<
        LexError,
    >)
        requires
            old(self).wf(),
            old(interner).wf(),
        ensures
            final(self).wf(),
            final(interner).wf(),
            old(interner)@.is_prefix_of(final(interner)@),
            old(self).failure() matches Some(e) ==> r == Some(e) && *final(self) == *old(self)
                && final(out)@ == old(out)@ && *final(interner) == *old(interner),
            old(self).failure() is None ==> ({
                let ms = rec_finish(old(self).pending());
                &&& r is None
                &&& final(self).failure() is None
                &&& final(self).pending() == Seq::<char>::empty()
                &&& final(out)@.len() == old(out)@.len() + ms.len()
                &&& final(out)@.take(old(out)@.len() as int) == old(out)@
                &&& tokens_match(final(out)@.skip(old(out)@.len() as int), ms, final(interner)@)
                &&& final(interner)@ == intern_spans(old(interner)@, ms)
            }),
    {
        proof {
            assert(old(interner)@.is_prefix_of(old(interner)@));
        }
        if let Some(e) = self.failed {
            return Some(e);
        }
        let ghost p = self.pending();
        let ghost ms = rec_finish(p);
        let ghost o0 = out@;
        let ghost iv0 = interner@;
        if let Some(q) = self.prefix {
            proof {
                assert(p =~= seq![q]);
            }
            self.prefix = None;
            out.push(Token::Sym(prefix_symbol_of(q)));
            out.push(Token::Eof);
            proof {
                assert(self.pending() =~= Seq::<char>::empty());
                assert(out@.take(o0.len() as int) =~= o0);
                assert(out@.skip(o0.len() as int) =~= seq![
                    Token::Sym(prefix_symbol(q)),
                    Token::Eof,
                ]);
                lemma_intern_spans_no_text(iv0, ms);
            }
            None
        } else if self.span.len() > 0 {
            let h = interner.insert_chars(&self.span);
            out.push(Token::Text(h));
            self.span.clear();
            out.push(Token::Eof);
            proof {
                assert(self.pending() =~= Seq::<char>::empty());
                lemma_interner_round_trip(iv0, p, Seq::<Seq<char>>::empty());
                assert(interner@[h as int] == p);
                assert(out@.take(o0.len() as int) =~= o0);
                assert(out@.skip(o0.len() as int) =~= seq![Token::Text(h), Token::Eof]);
                assert(ms.drop_first() =~= seq![TokenModel::Eof]);
                lemma_intern_spans_no_text(interner@, ms.drop_first());
                assert(intern_spans(iv0, ms) == interner@);
            }
            None
        } else {
            out.push(Token::Eof);
            proof {
                assert(p =~= Seq::<char>::empty());
                assert(out@.take(o0.len() as int) =~= o0);
                assert(out@.skip(o0.len() as int) =~= seq![Token::Eof]);
                lemma_intern_spans_no_text(iv0, ms);
            }
            None
        }
    }
}

/// Runs the recognizer over a finished sequence of scalar values, flushing at
/// its end: the tokens of the whole sequence under maximal munch, closed by
/// the end marker, or the error that stopped recognition. Text spans are
/// interned through `interner`, whose earlier contents stay in place.
pub fn token_generator_from_char(interner: &mut StringInterner, input: &[char]) -> (r: Result<
    Vec<Token>,
    LexError,
>)
    requires
        old(interner).wf(),
    ensures
        final(interner).wf(),
        old(interner)@.is_prefix_of(final(interner)@),
        match r {
            Ok(toks) => tokenize(input@).error is None && tokens_match(
                toks@,
                tokenize(input@).tokens,
                final(interner)@,
            ),
            Err(e) => tokenize(input@).error == Some(e),
        },
{
    let ghost iv0 = interner@;
    proof {
        assert(iv0.is_prefix_of(iv0));
    }
    let mut rec = Recognizer::new();
    let mut out: Vec<Token> = Vec::new();
    let n = input.len();
    let mut i: usize = 0;
    proof {
        assert(input@.take(0) =~= Seq::<char>::empty());
        assert(out@ =~= Seq::<Token>::empty());
        assert(tokens_match(out@, scan_chars(scan_start(), input@.take(0)).tokens, interner@));
    }
    while i < n
        invariant
            n == input@.len(),
            i <= n,
            rec.wf(),
            interner.wf(),
            rec.failure() is None,
            ({
                let sc = scan_chars(scan_start(), input@.take(i as int));
                &&& sc.error is None
                &&& rec.pending() == sc.pending
                &&& tokens_match(out@, sc.tokens, interner@)
                &&& interner@ == intern_spans(iv0, sc.tokens)
            }),
            iv0.is_prefix_of(interner@),
            iv0 == old(interner)@,
        decreases n - i,
    {
        let c = input[i];
        let ghost taken = input@.take(i as int);
        let ghost sc = scan_chars(scan_start(), taken);
        let ghost o_pre = out@;
        let ghost iv_pre = interner@;
        proof {
            lemma_scan_chars_app(scan_start(), taken, seq![c]);
            assert(taken + seq![c] =~= input@.take(i as int + 1));
            assert(seq![c].drop_first() =~= Seq::<char>::empty());
            assert(seq![c][0] == c);
            assert(scan_chars(scan_step(sc, c), Seq::<char>::empty()) == scan_step(sc, c));
            assert(scan_chars(sc, seq![c]) == scan_chars(scan_step(sc, c), seq![c].drop_first()));
            assert(scan_chars(scan_start(), input@.take(i as int + 1)) == scan_step(sc, c));
        }
        let verdict = rec.push_char(interner, &mut out, c);
        match verdict {
            None => {
                proof {
                    let s = rec_step(sc.pending, c);
                    let sc1 = scan_chars(scan_start(), input@.take(i as int + 1));
                    assert(sc1.tokens =~= sc.tokens + s.tokens);
                    lemma_tokens_match_concat(out@, sc.tokens, s.tokens, iv_pre, interner@, o_pre);
                    lemma_intern_spans_app(iv0, sc.tokens, s.tokens);
                    lemma_prefix_of_trans(iv0, iv_pre, interner@);
                }
            },
            Some(e) => {
                proof {
                    let sc1 = scan_chars(scan_start(), input@.take(i as int + 1));
                    assert(sc1.error == Some(e));
                    lemma_scan_chars_app(
                        scan_start(),
                        input@.take(i as int + 1),
                        input@.skip(i as int + 1),
                    );
                    assert(input@.take(i as int + 1) + input@.skip(i as int + 1) =~= input@);
                    lemma_scan_chars_frozen(sc1, input@.skip(i as int + 1));
                    lemma_recognizer_chunk_invariance(input@);
                    lemma_prefix_of_trans(iv0, iv_pre, interner@);
                }
                return Err(e);
            },
        }
        i += 1;
    }
    proof {
        assert(input@.take(n as int) =~= input@);
    }
    let ghost sc = scan_chars(scan_start(), input@);
    let ghost o_pre = out@;
    let ghost iv_pre = interner@;
    let verdict = rec.finish(interner, &mut out);
    match verdict {
        Some(e) => {
            proof {
                assert(false);
            }
            Err(e)
        },
        None => {
            proof {
                let ms = rec_finish(sc.pending);
                lemma_recognizer_chunk_invariance(input@);
                assert(scan_finish(sc).tokens =~= sc.tokens + ms);
                lemma_tokens_match_concat(out@, sc.tokens, ms, iv_pre, interner@, o_pre);
                lemma_prefix_of_trans(iv0, iv_pre, interner@);
                assert(tokens_match(out@, tokenize(input@).tokens, interner@));
            }
            Ok(out)
        },
    }
}

} // verus!
