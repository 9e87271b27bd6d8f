//! Tokens put out by the recognizer stage, and the errors that stop a stream.

use vstd::prelude::*;
use crate::utf8::Utf8Error;

verus! {

/// A fixed symbol of one or two characters, recognized by maximal munch: the
/// two-character form is always preferred when its second character follows.
#[derive(Clone, Copy, PartialEq, Eq, Structural, Debug)]
pub enum Symbol {
    Eq,
    EqEq,
    Lt,
    Le,
    Gt,
    Ge,
    And,
    AndAnd,
    Or,
    OrOr,
    Not,
    NotEq,
    Tilde,
    At,
    Dot,
    Comma,
    Semi,
    Colon,
    Pound,
    Dollar,
    Question,
    Quote,
    OpenBrace,
    ClosingBrace,
    OpenParen,
    ClosingParen,
    OpenBracket,
    ClosingBracket,
    Plus,
    Minus,
    Star,
    Slash,
    Percent,
    Caret,
}

/// A recognized lexical unit: a fixed symbol carrying no payload, a text span
/// carrying the handle the interner issued for its content, or the explicit
/// end marker of the stream. Tokens are never mutated after creation.
#[derive(Clone, Copy, PartialEq, Eq, Structural, Debug)]
pub enum Token {
    Sym(Symbol),
    Text(usize),
    Eof,
}

/// A token at the level of the model, with a text span spelled out as its
/// character sequence instead of interned.
pub enum TokenModel {
    Sym(Symbol),
    Text(Seq<char>),
    Eof,
}

/// Why tokenization stopped, with the originating stage told apart by the
/// variant. Every such error is fatal for its stream.
#[derive(Clone, Copy, PartialEq, Eq, Structural, Debug)]
pub enum LexError {
    /// The decoder stage rejected the byte stream.
    Decode(Utf8Error),
    /// The recognizer saw a character that starts no token.
    UnrecognizedSymbol,
}

/// Payload of a numeric literal: a fixed-size value that fits in a token via
/// the numeric interner. Parsing numeric literals is outside the pipeline's
/// scope; the interner only stores and returns these values.
#[derive(Clone, Copy, PartialEq, Eq, Structural, Debug)]
pub struct LitNum {
    pub mantissa: u64,
    pub exponent: i64,
}

/// An exec token stands for a model token when fixed symbols agree and a text
/// handle resolves, in the given interner contents, to the model's span.
pub open spec fn token_matches(t: Token, m: TokenModel, iv: Seq<Seq<char>>) -> bool {
    match m {
        TokenModel::Sym(s) => t == Token::Sym(s),
        TokenModel::Text(span) => match t {
            Token::Text(h) => h < iv.len() && iv[h as int] == span,
            _ => false,
        },
        TokenModel::Eof => t == Token::Eof,
    }
}

/// Element-wise [`token_matches`] over whole sequences.
pub open spec fn tokens_match(ts: Seq<Token>, ms: Seq<TokenModel>, iv: Seq<Seq<char>>) -> bool {
    ts.len() == ms.len() && forall|i: int| 0 <= i < ms.len() ==> token_matches(ts[i], ms[i], iv)
}

/// A match survives interning more spans: handles stay valid and keep their
/// content when the interner contents are extended.
pub proof fn lemma_tokens_match_extend(
    ts: Seq<Token>,
    ms: Seq<TokenModel>,
    iv1: Seq<Seq<char>>,
    iv2: Seq<Seq<char>>,
)
    requires
        tokens_match(ts, ms, iv1),
        iv1.is_prefix_of(iv2),
    ensures
        tokens_match(ts, ms, iv2),
{
    assert forall|i: int| 0 <= i < ms.len() implies token_matches(ts[i], ms[i], iv2) by {
        assert(token_matches(ts[i], ms[i], iv1));
    }
}

/// Matches compose: output already matched under earlier interner contents,
/// extended by a newly matched stretch, matches the concatenated models.
pub proof fn lemma_tokens_match_concat(
    o: Seq<Token>,
    t1: Seq<TokenModel>,
    t2: Seq<TokenModel>,
    iv1: Seq<Seq<char>>,
    iv2: Seq<Seq<char>>,
    o1: Seq<Token>,
)
    requires
        tokens_match(o1, t1, iv1),
        iv1.is_prefix_of(iv2),
        o.len() == o1.len() + t2.len(),
        o.take(o1.len() as int) == o1,
        tokens_match(o.skip(o1.len() as int), t2, iv2),
    ensures
        tokens_match(o, t1 + t2, iv2),
{
    lemma_tokens_match_extend(o1, t1, iv1, iv2);
    assert forall|i: int| 0 <= i < (t1 + t2).len() implies token_matches(
        o[i],
        (t1 + t2)[i],
        iv2,
    ) by {
        if i < t1.len() {
            assert(o[i] == o.take(o1.len() as int)[i]);
            assert(token_matches(o1[i], t1[i], iv2));
        } else {
            assert(o[i] == o.skip(o1.len() as int)[i - o1.len()]);
            assert(token_matches(o.skip(o1.len() as int)[i - o1.len()], t2[i - o1.len()], iv2));
        }
    }
}

/// Being a prefix is transitive.
pub proof fn lemma_prefix_of_trans(a: Seq<Seq<char>>, b: Seq<Seq<char>>, c: Seq<Seq<char>>)
    requires
        a.is_prefix_of(b),
        b.is_prefix_of(c),
    ensures
        a.is_prefix_of(c),
{
    assert(a =~= c.subrange(0, a.len() as int));
}

} // verus!
