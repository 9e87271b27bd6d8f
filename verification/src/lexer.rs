//! One-shot lexer over a borrowed string.
//!
//! This is the front door for callers that already hold the whole input:
//! [`Lexer::lex`] recognizes the first token of the input under the same
//! maximal-munch rules as the streaming recognizer, treating the end of the
//! string as end of stream, and reports how many bytes it consumed, so
//! repeated calls walk the input token by token. [`Ptr`] is the byte cursor
//! the lexer advances with one scalar value per bump.

use vstd::prelude::*;
use vstd::utf8::char_u32_cast;
use vstd::utf8::decode_first_scalar;
use vstd::utf8::encode_scalar;
use vstd::utf8::encode_utf8;
use vstd::utf8::encode_utf8_first_scalar;
use vstd::utf8::length_of_first_scalar;
use vstd::utf8::valid_first_scalar;
use crate::interner::NumInterner;
use crate::interner::StringInterner;
use crate::interner::insert_all;
use crate::interner::insert_view;
use crate::interner::lemma_interner_round_trip;
use crate::recognizer::ident_span_len;
use crate::recognizer::intern_spans;
use crate::recognizer::is_ident;
use crate::recognizer::is_ident_char;
use crate::recognizer::is_prefix_char;
use crate::recognizer::is_space;
use crate::recognizer::is_space_char;
use crate::recognizer::lemma_ident_span_of_all;
use crate::recognizer::lemma_intern_spans_no_text;
use crate::recognizer::next_token;
use crate::recognizer::prefix_symbol;
use crate::recognizer::sym1;
use crate::recognizer::sym2;
use crate::token::LexError;
use crate::token::LitNum;
use crate::token::Symbol;
use crate::token::Token;
use crate::token::TokenModel;
use crate::token::token_matches;
use crate::utf8::lemma_encode_utf8_app;
use crate::utf8::parse_utf8;

verus! {

/// A cursor at `i` scalar values into `chars` stands at the byte offset of
/// the encoding of the remaining characters; this names every fact the
/// cursor's methods need about that offset.
proof fn lemma_cursor_tail(chars: Seq<char>, i: int)
    requires
        0 <= i <= chars.len(),
    ensures
        ({
            let bytes = encode_utf8(chars);
            let pos = encode_utf8(chars.take(i)).len() as int;
            &&& pos <= bytes.len()
            &&& bytes.skip(pos) =~= encode_utf8(chars.skip(i))
            &&& (i < chars.len() ==> {
                let tail = encode_utf8(chars.skip(i));
                &&& valid_first_scalar(tail)
                &&& decode_first_scalar(tail) == chars[i] as u32
                &&& length_of_first_scalar(tail) == encode_scalar(chars[i] as u32).len()
                &&& pos + encode_scalar(chars[i] as u32).len() == encode_utf8(
                    chars.take(i + 1),
                ).len()
            })
            &&& (i == chars.len() ==> pos == bytes.len())
        }),
{
    assert(chars =~= chars.take(i) + chars.skip(i));
    lemma_encode_utf8_app(chars.take(i), chars.skip(i));
    assert(encode_utf8(chars) =~= encode_utf8(chars.take(i)) + encode_utf8(chars.skip(i)));
    let pos = encode_utf8(chars.take(i)).len() as int;
    assert(encode_utf8(chars).skip(pos) =~= encode_utf8(chars.skip(i)));
    if i < chars.len() {
        assert(chars.skip(i).len() > 0);
        assert(chars.skip(i)[0] == chars[i]);
        encode_utf8_first_scalar(chars.skip(i));
        assert(chars.take(i + 1) =~= chars.take(i) + seq![chars[i]]);
        lemma_encode_utf8_app(chars.take(i), seq![chars[i]]);
        assert(seq![chars[i]].drop_first() =~= Seq::<char>::empty());
        assert(encode_utf8(Seq::<char>::empty()) =~= Seq::<u8>::empty());
        assert(encode_utf8(seq![chars[i]]) =~= encode_scalar(chars[i] as u32));
    } else {
        assert(chars.skip(i) =~= Seq::<char>::empty());
        assert(encode_utf8(chars.skip(i)).len() == 0);
    }
}

/// Leading whitespace only shifts the first token, never changes it.
proof fn lemma_next_token_skip_spaces(chars: Seq<char>, i: int)
    requires
        0 <= i <= chars.len(),
        forall|j: int| 0 <= j < i ==> is_space(#[trigger] chars[j]),
    ensures
        next_token(chars).token == next_token(chars.skip(i)).token,
        next_token(chars).error == next_token(chars.skip(i)).error,
        next_token(chars).used == i + next_token(chars.skip(i)).used,
    decreases i,
{
    if i == 0 {
        assert(chars.skip(0) =~= chars);
    } else {
        assert(is_space(chars[0]));
        assert(forall|j: int|
            0 <= j < i - 1 ==> chars.drop_first()[j] == chars[j + 1] && is_space(
                #[trigger] chars.drop_first()[j],
            ));
        lemma_next_token_skip_spaces(chars.drop_first(), i - 1);
        assert(chars.drop_first().skip(i - 1) =~= chars.skip(i));
    }
}

/// A byte cursor over a borrowed string: it hands out one scalar value per
/// bump and tracks the byte offset where the next one begins. The string is
/// only read; the cursor never outlives the borrow.
pub struct Ptr<'a> {
    s: &'a str,
    pos: usize,
    idx: Ghost<int>,
}

impl<'a> Ptr<'a> {
    /// The scalar values the cursor walks over.
    pub closed spec fn chars(&self) -> Seq<char> {
        self.s@
    }

    /// How many scalar values have been consumed.
    pub closed spec fn idx(&self) -> int {
        self.idx@
    }

    /// The cursor stands exactly at the end of the encoding of the consumed
    /// characters.
    pub closed spec fn wf(&self) -> bool {
        &&& 0 <= self.idx@ <= self.s@.len()
        &&& self.pos == encode_utf8(self.s@.take(self.idx@)).len()
    }

    /// A cursor at the start of `s`.
    pub fn new(s: &'a str) -> (r: Ptr<'a>)
        ensures
            r.wf(),
            r.chars() == s@,
            r.idx() == 0,
    {
        let r = Ptr { s, pos: 0, idx: Ghost(0) };
        proof {
            assert(s@.take(0) =~= Seq::<char>::empty());
            assert(encode_utf8(Seq::<char>::empty()) =~= Seq::<u8>::empty());
        }
        r
    }

    /// The byte offset consumed so far: where the next token's encoding
    /// begins.
    pub fn ret(&self) -> (r: usize)
        requires
            self.wf(),
        ensures
            r == encode_utf8(self.chars().take(self.idx())).len(),
    {
        self.pos
    }

    /// How many bytes of the input are still unconsumed.
    pub fn capacity_left(&self) -> (r: usize)
        requires
            self.wf(),
        ensures
            r == encode_utf8(self.chars().skip(self.idx())).len(),
    {
        proof {
            lemma_cursor_tail(self.s@, self.idx@);
            assert(self.s@ =~= self.s@.take(self.idx@) + self.s@.skip(self.idx@));
            lemma_encode_utf8_app(self.s@.take(self.idx@), self.s@.skip(self.idx@));
            assert(encode_utf8(self.s@).len() == self.pos + encode_utf8(
                self.s@.skip(self.idx@),
            ).len());
        }
        let total = self.s.as_bytes().len();
        proof {
            assert(total == encode_utf8(self.s@).len());
        }
        total - self.pos
    }

    /// The next scalar value, without consuming it; `None` at the end.
    pub fn peek(&self) -> (r: Option<char>)
        requires
            self.wf(),
        ensures
            self.idx() < self.chars().len() ==> r == Some(self.chars()[self.idx()]),
            self.idx() >= self.chars().len() ==> r is None,
    {
        let ghost chars = self.s@;
        let ghost i = self.idx@;
        proof {
            lemma_cursor_tail(chars, i);
        }
        let bytes = self.s.as_bytes();
        let mut p = self.pos;
        let r = parse_utf8(bytes, &mut p);
        proof {
            if i < chars.len() {
                match r {
                    Some(c) => {
                        char_u32_cast(c, c as u32);
                        char_u32_cast(chars[i], chars[i] as u32);
                    },
                    None => {
                        assert(false);
                    },
                }
            }
        }
        r
    }

    /// Decodes the next scalar value and advances past its encoding; `None`,
    /// with the cursor unmoved, at the end.
    pub fn bump(&mut self) -> (r: Option<char>)
        requires
            old(self).wf(),
        ensures
            final(self).wf(),
            final(self).chars() == old(self).chars(),
            old(self).idx() < old(self).chars().len() ==> r == Some(
                old(self).chars()[old(self).idx()],
            ) && final(self).idx() == old(self).idx() + 1,
            old(self).idx() >= old(self).chars().len() ==> r is None && *final(self) == *old(self),
    {
        let ghost chars = self.s@;
        let ghost i = self.idx@;
        proof {
            lemma_cursor_tail(chars, i);
        }
        let bytes = self.s.as_bytes();
        let r = parse_utf8(bytes, &mut self.pos);
        match r {
            Some(c) => {
                proof {
                    if i < chars.len() {
                        char_u32_cast(c, c as u32);
                        char_u32_cast(chars[i], chars[i] as u32);
                    } else {
                        assert(false);
                    }
                }
                self.idx = Ghost(i + 1);
                Some(c)
            },
            None => {
                proof {
                    if i < chars.len() {
                        assert(false);
                    }
                }
                None
            },
        }
    }
}

/// The lexer's per-stream state: the interners through which text spans and
/// numeric-literal payloads resolve. The caller owns it for the stream's
/// lifetime, so handles in already-produced tokens stay valid.
pub struct Lexer {
    pub string_interner: StringInterner,
    pub num_interner: NumInterner,
}

impl Lexer {
    /// A lexer with empty interners.
    pub fn new() -> (r: Lexer)
        ensures
            r.string_interner.wf(),
            r.string_interner@ == Seq::<Seq<char>>::empty(),
            r.num_interner@ == Seq::<LitNum>::empty(),
    {
        Lexer { string_interner: StringInterner::empty(), num_interner: NumInterner::empty() }
    }

    /// Maximal-munch lookahead shared by the two-character symbols: takes the
    /// two-character symbol when its second character follows, else leaves
    /// the cursor alone and yields the one-character symbol.
    fn munch_pair(ptr: &mut Ptr<'_>, second: char, long: Symbol, short: Symbol) -> (r: (
        Token,
        usize,
    ))
        requires
            old(ptr).wf(),
        ensures
            final(ptr).wf(),
            final(ptr).chars() == old(ptr).chars(),
            ({
                let i = old(ptr).idx();
                let cs = old(ptr).chars();
                &&& ((i < cs.len() && cs[i] == second) ==> r.0 == Token::Sym(long) && final(ptr).idx() == i + 1)
                &&& (!(i < cs.len() && cs[i] == second) ==> r.0 == Token::Sym(short) && final(ptr).idx() == i)
            }),
            r.1 == encode_utf8(final(ptr).chars().take(final(ptr).idx())).len(),
    {
        let p = ptr.peek();
        match p {
            Some(d) => {
                if d == second {
                    ptr.bump();
                    (Token::Sym(long), ptr.ret())
                } else {
                    (Token::Sym(short), ptr.ret())
                }
            },
            None => (Token::Sym(short), ptr.ret()),
        }
    }

    fn start_eq(&mut self, ptr: &mut Ptr<'_>) -> (r: (Token, usize))
        requires
            old(ptr).wf(),
        ensures
            *final(self) == *old(self),
            final(ptr).wf(),
            final(ptr).chars() == old(ptr).chars(),
            ({
                let i = old(ptr).idx();
                let cs = old(ptr).chars();
                &&& ((i < cs.len() && cs[i] == '=') ==> r.0 == Token::Sym(Symbol::EqEq) && final(ptr).idx() == i + 1)
                &&& (!(i < cs.len() && cs[i] == '=') ==> r.0 == Token::Sym(Symbol::Eq) && final(ptr).idx() == i)
            }),
            r.1 == encode_utf8(final(ptr).chars().take(final(ptr).idx())).len(),
    {
        Self::munch_pair(ptr, '=', Symbol::EqEq, Symbol::Eq)
    }

    fn start_le(&mut self, ptr: &mut Ptr<'_>) -> (r: (Token, usize))
        requires
            old(ptr).wf(),
        ensures
            *final(self) == *old(self),
            final(ptr).wf(),
            final(ptr).chars() == old(ptr).chars(),
            ({
                let i = old(ptr).idx();
                let cs = old(ptr).chars();
                &&& ((i < cs.len() && cs[i] == '=') ==> r.0 == Token::Sym(Symbol::Le) && final(ptr).idx() == i + 1)
                &&& (!(i < cs.len() && cs[i] == '=') ==> r.0 == Token::Sym(Symbol::Lt) && final(ptr).idx() == i)
            }),
            r.1 == encode_utf8(final(ptr).chars().take(final(ptr).idx())).len(),
    {
        Self::munch_pair(ptr, '=', Symbol::Le, Symbol::Lt)
    }

    fn start_ge(&mut self, ptr: &mut Ptr<'_>) -> (r: (Token, usize))
        requires
            old(ptr).wf(),
        ensures
            *final(self) == *old(self),
            final(ptr).wf(),
            final(ptr).chars() == old(ptr).chars(),
            ({
                let i = old(ptr).idx();
                let cs = old(ptr).chars();
                &&& ((i < cs.len() && cs[i] == '=') ==> r.0 == Token::Sym(Symbol::Ge) && final(ptr).idx() == i + 1)
                &&& (!(i < cs.len() && cs[i] == '=') ==> r.0 == Token::Sym(Symbol::Gt) && final(ptr).idx() == i)
            }),
            r.1 == encode_utf8(final(ptr).chars().take(final(ptr).idx())).len(),
    {
        Self::munch_pair(ptr, '=', Symbol::Ge, Symbol::Gt)
    }

    fn start_and(&mut self, ptr: &mut Ptr<'_>) -> (r: (Token, usize))
        requires
            old(ptr).wf(),
        ensures
            *final(self) == *old(self),
            final(ptr).wf(),
            final(ptr).chars() == old(ptr).chars(),
            ({
                let i = old(ptr).idx();
                let cs = old(ptr).chars();
                &&& ((i < cs.len() && cs[i] == '&') ==> r.0 == Token::Sym(Symbol::AndAnd) && final(ptr).idx() == i + 1)
                &&& (!(i < cs.len() && cs[i] == '&') ==> r.0 == Token::Sym(Symbol::And) && final(ptr).idx() == i)
            }),
            r.1 == encode_utf8(final(ptr).chars().take(final(ptr).idx())).len(),
    {
        Self::munch_pair(ptr, '&', Symbol::AndAnd, Symbol::And)
    }

    fn start_or(&mut self, ptr: &mut Ptr<'_>) -> (r: (Token, usize))
        requires
            old(ptr).wf(),
        ensures
            *final(self) == *old(self),
            final(ptr).wf(),
            final(ptr).chars() == old(ptr).chars(),
            ({
                let i = old(ptr).idx();
                let cs = old(ptr).chars();
                &&& ((i < cs.len() && cs[i] == '|') ==> r.0 == Token::Sym(Symbol::OrOr) && final(ptr).idx() == i + 1)
                &&& (!(i < cs.len() && cs[i] == '|') ==> r.0 == Token::Sym(Symbol::Or) && final(ptr).idx() == i)
            }),
            r.1 == encode_utf8(final(ptr).chars().take(final(ptr).idx())).len(),
    {
        Self::munch_pair(ptr, '|', Symbol::OrOr, Symbol::Or)
    }

    fn start_not(&mut self, ptr: &mut Ptr<'_>) -> (r: (Token, usize))
        requires
            old(ptr).wf(),
        ensures
            *final(self) == *old(self),
            final(ptr).wf(),
            final(ptr).chars() == old(ptr).chars(),
            ({
                let i = old(ptr).idx();
                let cs = old(ptr).chars();
                &&& ((i < cs.len() && cs[i] == '=') ==> r.0 == Token::Sym(Symbol::NotEq) && final(ptr).idx() == i + 1)
                &&& (!(i < cs.len() && cs[i] == '=') ==> r.0 == Token::Sym(Symbol::Not) && final(ptr).idx() == i)
            }),
            r.1 == encode_utf8(final(ptr).chars().take(final(ptr).idx())).len(),
    {
        Self::munch_pair(ptr, '=', Symbol::NotEq, Symbol::Not)
    }

    fn start_tilde(&mut self, ptr: &mut Ptr<'_>) -> (r: (Token, usize))
        requires
            old(ptr).wf(),
        ensures
            *final(self) == *old(self),
            *final(ptr) == *old(ptr),
            r.0 == Token::Sym(Symbol::Tilde),
            r.1 == encode_utf8(old(ptr).chars().take(old(ptr).idx())).len(),
    {
        (Token::Sym(Symbol::Tilde), ptr.ret())
    }

    fn start_at(&mut self, ptr: &mut Ptr<'_>) -> (r: (Token, usize))
        requires
            old(ptr).wf(),
        ensures
            *final(self) == *old(self),
            *final(ptr) == *old(ptr),
            r.0 == Token::Sym(Symbol::At),
            r.1 == encode_utf8(old(ptr).chars().take(old(ptr).idx())).len(),
    {
        (Token::Sym(Symbol::At), ptr.ret())
    }

    fn start_dot(&mut self, ptr: &mut Ptr<'_>) -> (r: (Token, usize))
        requires
            old(ptr).wf(),
        ensures
            *final(self) == *old(self),
            *final(ptr) == *old(ptr),
            r.0 == Token::Sym(Symbol::Dot),
            r.1 == encode_utf8(old(ptr).chars().take(old(ptr).idx())).len(),
    {
        (Token::Sym(Symbol::Dot), ptr.ret())
    }

    fn start_comma(&mut self, ptr: &mut Ptr<'_>) -> (r: (Token, usize))
        requires
            old(ptr).wf(),
        ensures
            *final(self) == *old(self),
            *final(ptr) == *old(ptr),
            r.0 == Token::Sym(Symbol::Comma),
            r.1 == encode_utf8(old(ptr).chars().take(old(ptr).idx())).len(),
    {
        (Token::Sym(Symbol::Comma), ptr.ret())
    }

    fn start_semi(&mut self, ptr: &mut Ptr<'_>) -> (r: (Token, usize))
        requires
            old(ptr).wf(),
        ensures
            *final(self) == *old(self),
            *final(ptr) == *old(ptr),
            r.0 == Token::Sym(Symbol::Semi),
            r.1 == encode_utf8(old(ptr).chars().take(old(ptr).idx())).len(),
    {
        (Token::Sym(Symbol::Semi), ptr.ret())
    }

    fn start_colon(&mut self, ptr: &mut Ptr<'_>) -> (r: (Token, usize))
        requires
            old(ptr).wf(),
        ensures
            *final(self) == *old(self),
            *final(ptr) == *old(ptr),
            r.0 == Token::Sym(Symbol::Colon),
            r.1 == encode_utf8(old(ptr).chars().take(old(ptr).idx())).len(),
    {
        (Token::Sym(Symbol::Colon), ptr.ret())
    }

    fn start_pound(&mut self, ptr: &mut Ptr<'_>) -> (r: (Token, usize))
        requires
            old(ptr).wf(),
        ensures
            *final(self) == *old(self),
            *final(ptr) == *old(ptr),
            r.0 == Token::Sym(Symbol::Pound),
            r.1 == encode_utf8(old(ptr).chars().take(old(ptr).idx())).len(),
    {
        (Token::Sym(Symbol::Pound), ptr.ret())
    }

    fn start_dollar(&mut self, ptr: &mut Ptr<'_>) -> (r: (Token, usize))
        requires
            old(ptr).wf(),
        ensures
            *final(self) == *old(self),
            *final(ptr) == *old(ptr),
            r.0 == Token::Sym(Symbol::Dollar),
            r.1 == encode_utf8(old(ptr).chars().take(old(ptr).idx())).len(),
    {
        (Token::Sym(Symbol::Dollar), ptr.ret())
    }

    fn start_question(&mut self, ptr: &mut Ptr<'_>) -> (r: (Token, usize))
        requires
            old(ptr).wf(),
        ensures
            *final(self) == *old(self),
            *final(ptr) == *old(ptr),
            r.0 == Token::Sym(Symbol::Question),
            r.1 == encode_utf8(old(ptr).chars().take(old(ptr).idx())).len(),
    {
        (Token::Sym(Symbol::Question), ptr.ret())
    }

    fn start_quote(&mut self, ptr: &mut Ptr<'_>) -> (r: (Token, usize))
        requires
            old(ptr).wf(),
        ensures
            *final(self) == *old(self),
            *final(ptr) == *old(ptr),
            r.0 == Token::Sym(Symbol::Quote),
            r.1 == encode_utf8(old(ptr).chars().take(old(ptr).idx())).len(),
    {
        (Token::Sym(Symbol::Quote), ptr.ret())
    }

    fn start_open_brace(&mut self, ptr: &mut Ptr<'_>) -> (r: (Token, usize))
        requires
            old(ptr).wf(),
        ensures
            *final(self) == *old(self),
            *final(ptr) == *old(ptr),
            r.0 == Token::Sym(Symbol::OpenBrace),
            r.1 == encode_utf8(old(ptr).chars().take(old(ptr).idx())).len(),
    {
        (Token::Sym(Symbol::OpenBrace), ptr.ret())
    }

    fn start_closing_brace(&mut self, ptr: &mut Ptr<'_>) -> (r: (Token, usize))
        requires
            old(ptr).wf(),
        ensures
            *final(self) == *old(self),
            *final(ptr) == *old(ptr),
            r.0 == Token::Sym(Symbol::ClosingBrace),
            r.1 == encode_utf8(old(ptr).chars().take(old(ptr).idx())).len(),
    {
        (Token::Sym(Symbol::ClosingBrace), ptr.ret())
    }

    fn start_open_paren(&mut self, ptr: &mut Ptr<'_>) -> (r: (Token, usize))
        requires
            old(ptr).wf(),
        ensures
            *final(self) == *old(self),
            *final(ptr) == *old(ptr),
            r.0 == Token::Sym(Symbol::OpenParen),
            r.1 == encode_utf8(old(ptr).chars().take(old(ptr).idx())).len(),
    {
        (Token::Sym(Symbol::OpenParen), ptr.ret())
    }

    fn start_closing_paren(&mut self, ptr: &mut Ptr<'_>) -> (r: (Token, usize))
        requires
            old(ptr).wf(),
        ensures
            *final(self) == *old(self),
            *final(ptr) == *old(ptr),
            r.0 == Token::Sym(Symbol::ClosingParen),
            r.1 == encode_utf8(old(ptr).chars().take(old(ptr).idx())).len(),
    {
        (Token::Sym(Symbol::ClosingParen), ptr.ret())
    }

    fn start_open_bracket(&mut self, ptr: &mut Ptr<'_>) -> (r: (Token, usize))
        requires
            old(ptr).wf(),
        ensures
            *final(self) == *old(self),
            *final(ptr) == *old(ptr),
            r.0 == Token::Sym(Symbol::OpenBracket),
            r.1 == encode_utf8(old(ptr).chars().take(old(ptr).idx())).len(),
    {
        (Token::Sym(Symbol::OpenBracket), ptr.ret())
    }

    fn start_closing_bracket(&mut self, ptr: &mut Ptr<'_>) -> (r: (Token, usize))
        requires
            old(ptr).wf(),
        ensures
            *final(self) == *old(self),
            *final(ptr) == *old(ptr),
            r.0 == Token::Sym(Symbol::ClosingBracket),
            r.1 == encode_utf8(old(ptr).chars().take(old(ptr).idx())).len(),
    {
        (Token::Sym(Symbol::ClosingBracket), ptr.ret())
    }

    fn start_add(&mut self, ptr: &mut Ptr<'_>) -> (r: (Token, usize))
        requires
            old(ptr).wf(),
        ensures
            *final(self) == *old(self),
            *final(ptr) == *old(ptr),
            r.0 == Token::Sym(Symbol::Plus),
            r.1 == encode_utf8(old(ptr).chars().take(old(ptr).idx())).len(),
    {
        (Token::Sym(Symbol::Plus), ptr.ret())
    }

    fn start_minus(&mut self, ptr: &mut Ptr<'_>) -> (r: (Token, usize))
        requires
            old(ptr).wf(),
        ensures
            *final(self) == *old(self),
            *final(ptr) == *old(ptr),
            r.0 == Token::Sym(Symbol::Minus),
            r.1 == encode_utf8(old(ptr).chars().take(old(ptr).idx())).len(),
    {
        (Token::Sym(Symbol::Minus), ptr.ret())
    }

    fn start_star(&mut self, ptr: &mut Ptr<'_>) -> (r: (Token, usize))
        requires
            old(ptr).wf(),
        ensures
            *final(self) == *old(self),
            *final(ptr) == *old(ptr),
            r.0 == Token::Sym(Symbol::Star),
            r.1 == encode_utf8(old(ptr).chars().take(old(ptr).idx())).len(),
    {
        (Token::Sym(Symbol::Star), ptr.ret())
    }

    fn start_slash(&mut self, ptr: &mut Ptr<'_>) -> (r: (Token, usize))
        requires
            old(ptr).wf(),
        ensures
            *final(self) == *old(self),
            *final(ptr) == *old(ptr),
            r.0 == Token::Sym(Symbol::Slash),
            r.1 == encode_utf8(old(ptr).chars().take(old(ptr).idx())).len(),
    {
        (Token::Sym(Symbol::Slash), ptr.ret())
    }

    fn start_percentage(&mut self, ptr: &mut Ptr<'_>) -> (r: (Token, usize))
        requires
            old(ptr).wf(),
        ensures
            *final(self) == *old(self),
            *final(ptr) == *old(ptr),
            r.0 == Token::Sym(Symbol::Percent),
            r.1 == encode_utf8(old(ptr).chars().take(old(ptr).idx())).len(),
    {
        (Token::Sym(Symbol::Percent), ptr.ret())
    }

    fn start_caret(&mut self, ptr: &mut Ptr<'_>) -> (r: (Token, usize))
        requires
            old(ptr).wf(),
        ensures
            *final(self) == *old(self),
            *final(ptr) == *old(ptr),
            r.0 == Token::Sym(Symbol::Caret),
            r.1 == encode_utf8(old(ptr).chars().take(old(ptr).idx())).len(),
    {
        (Token::Sym(Symbol::Caret), ptr.ret())
    }

    /// Recognizes the first token of `input` under maximal munch, treating
    /// the end of the string as end of stream, and returns it with the byte
    /// offset just past it, where the next call should resume. Text spans
    /// are interned; recognition fails exactly on a character that starts no
    /// token.
    pub fn lex(&mut self, input: &str) -> (r: Result<(Token, usize), LexError>)
        requires
            old(self).string_interner.wf(),
        ensures
            final(self).string_interner.wf(),
            old(self).string_interner@.is_prefix_of(final(self).string_interner@),
            final(self).num_interner == old(self).num_interner,
            ({
                let nt = next_token(input@);
                match r {
                    Ok(t) => {
                        &&& nt.error is None
                        &&& token_matches(t.0, nt.token, final(self).string_interner@)
                        &&& t.1 == encode_utf8(input@.take(nt.used)).len()
                        &&& final(self).string_interner@ == intern_spans(
                            old(self).string_interner@,
                            seq![nt.token],
                        )
                    },
                    Err(e) => {
                        &&& nt.error == Some(e)
                        &&& *final(self) == *old(self)
                    },
                }
            }),
    {
        let ghost iv0 = self.string_interner@;
        let ghost chars = input@;
        let ghost nt = next_token(input@);
        let mut ptr = Ptr::new(input);
        proof {
            assert(iv0.is_prefix_of(iv0));
        }
        loop
            invariant
                ptr.wf(),
                ptr.chars() == chars,
                chars == input@,
                forall|j: int| 0 <= j < ptr.idx() ==> is_space(#[trigger] chars[j]),
            ensures
                ptr.wf(),
                ptr.chars() == chars,
                0 <= ptr.idx() <= chars.len(),
                forall|j: int| 0 <= j < ptr.idx() ==> is_space(#[trigger] chars[j]),
                ptr.idx() == chars.len() || !is_space(chars[ptr.idx()]),
            decreases chars.len() - ptr.idx(),
        {
            let p = ptr.peek();
            match p {
                Some(c0) => {
                    if is_space_char(c0) {
                        ptr.bump();
                    } else {
                        break;
                    }
                },
                None => {
                    break;
                },
            }
        }
        let ghost i = ptr.idx();
        proof {
            lemma_next_token_skip_spaces(chars, i);
        }
        let ghost cs = chars.skip(i);
        let ghost nt2 = next_token(cs);
        let p = ptr.peek();
        let c = match p {
            None => {
                proof {
                    assert(cs.len() == 0);
                    lemma_intern_spans_no_text(iv0, seq![nt.token]);
                }
                return Ok((Token::Eof, ptr.ret()));
            },
            Some(c0) => c0,
        };
        proof {
            assert(i < chars.len());
            assert(cs[0] == chars[i]);
            assert(cs[0] == c);
            assert(!is_space(c));
        }
        if is_ident(c) {
            let mut span: Vec<char> = Vec::new();
            loop
                invariant
                    ptr.wf(),
                    ptr.chars() == chars,
                    chars == input@,
                    i + span@.len() == ptr.idx(),
                    0 <= i <= ptr.idx() <= chars.len(),
                    span@ == chars.subrange(i, ptr.idx()),
                    forall|j: int| 0 <= j < span@.len() ==> is_ident_char(#[trigger] span@[j]),
                ensures
                    ptr.wf(),
                    ptr.chars() == chars,
                    i + span@.len() == ptr.idx(),
                    0 <= i <= ptr.idx() <= chars.len(),
                    span@ == chars.subrange(i, ptr.idx()),
                    forall|j: int| 0 <= j < span@.len() ==> is_ident_char(#[trigger] span@[j]),
                    ptr.idx() == chars.len() || !is_ident_char(chars[ptr.idx()]),
                decreases chars.len() - ptr.idx(),
            {
                let q = ptr.peek();
                match q {
                    Some(d) => {
                        if is_ident(d) {
                            ptr.bump();
                            span.push(d);
                            proof {
                                assert(chars.subrange(i, ptr.idx()) =~= chars.subrange(
                                    i,
                                    ptr.idx() - 1,
                                ).push(chars[ptr.idx() - 1]));
                                assert(span@ =~= chars.subrange(i, ptr.idx()));
                            }
                        } else {
                            break;
                        }
                    },
                    None => {
                        break;
                    },
                }
            }
            let ghost k = span@.len() as int;
            proof {
                assert(chars[i] == c);
                assert(k >= 1) by {
                    if k == 0 {
                        assert(ptr.idx() == i);
                        assert(is_ident_char(chars[i]));
                    }
                }
                let rest = chars.skip(i + k);
                assert(cs =~= span@ + rest);
                assert(rest.len() == 0 || rest[0] == chars[i + k]);
                lemma_ident_span_of_all(span@, rest);
                assert(ident_span_len(cs) == k);
                assert(nt2.token == TokenModel::Text(cs.take(k)));
                assert(cs.take(k) =~= span@);
                assert(nt2.used == k && nt2.error is None);
            }
            let h = self.string_interner.insert_chars(&span);
            proof {
                lemma_interner_round_trip(iv0, span@, Seq::<Seq<char>>::empty());
                assert(insert_all(insert_view(iv0, span@), Seq::<Seq<char>>::empty())
                    == insert_view(iv0, span@));
                assert(self.string_interner@[h as int] == span@);
                assert(h < self.string_interner@.len());
                assert(seq![nt.token].drop_first() =~= Seq::<TokenModel>::empty());
                assert(intern_spans(insert_view(iv0, span@), Seq::<TokenModel>::empty())
                    == insert_view(iv0, span@));
                assert(intern_spans(iv0, seq![nt.token]) == insert_view(iv0, span@));
            }
            return Ok((Token::Text(h), ptr.ret()));
        }
        ptr.bump();
        proof {
            assert(ptr.idx() == i + 1);
        }
        match c {
            '=' => {
                let t = self.start_eq(&mut ptr);
                proof {
                    lex_prefix_case(chars, i, c, '=', Symbol::EqEq, Symbol::Eq);
                    lemma_intern_spans_no_text(iv0, seq![nt.token]);
                }
                Ok(t)
            },
            '<' => {
                let t = self.start_le(&mut ptr);
                proof {
                    lex_prefix_case(chars, i, c, '=', Symbol::Le, Symbol::Lt);
                    lemma_intern_spans_no_text(iv0, seq![nt.token]);
                }
                Ok(t)
            },
            '>' => {
                let t = self.start_ge(&mut ptr);
                proof {
                    lex_prefix_case(chars, i, c, '=', Symbol::Ge, Symbol::Gt);
                    lemma_intern_spans_no_text(iv0, seq![nt.token]);
                }
                Ok(t)
            },
            '&' => {
                let t = self.start_and(&mut ptr);
                proof {
                    lex_prefix_case(chars, i, c, '&', Symbol::AndAnd, Symbol::And);
                    lemma_intern_spans_no_text(iv0, seq![nt.token]);
                }
                Ok(t)
            },
            '|' => {
                let t = self.start_or(&mut ptr);
                proof {
                    lex_prefix_case(chars, i, c, '|', Symbol::OrOr, Symbol::Or);
                    lemma_intern_spans_no_text(iv0, seq![nt.token]);
                }
                Ok(t)
            },
            '!' => {
                let t = self.start_not(&mut ptr);
                proof {
                    lex_prefix_case(chars, i, c, '=', Symbol::NotEq, Symbol::Not);
                    lemma_intern_spans_no_text(iv0, seq![nt.token]);
                }
                Ok(t)
            },
            '~' => {
                let t = self.start_tilde(&mut ptr);
                proof {
                    lemma_intern_spans_no_text(iv0, seq![nt.token]);
                }
                Ok(t)
            },
            '@' => {
                let t = self.start_at(&mut ptr);
                proof {
                    lemma_intern_spans_no_text(iv0, seq![nt.token]);
                }
                Ok(t)
            },
            '.' => {
                let t = self.start_dot(&mut ptr);
                proof {
                    lemma_intern_spans_no_text(iv0, seq![nt.token]);
                }
                Ok(t)
            },
            ',' => {
                let t = self.start_comma(&mut ptr);
                proof {
                    lemma_intern_spans_no_text(iv0, seq![nt.token]);
                }
                Ok(t)
            },
            ';' => {
                let t = self.start_semi(&mut ptr);
                proof {
                    lemma_intern_spans_no_text(iv0, seq![nt.token]);
                }
                Ok(t)
            },
            ':' => {
                let t = self.start_colon(&mut ptr);
                proof {
                    lemma_intern_spans_no_text(iv0, seq![nt.token]);
                }
                Ok(t)
            },
            '#' => {
                let t = self.start_pound(&mut ptr);
                proof {
                    lemma_intern_spans_no_text(iv0, seq![nt.token]);
                }
                Ok(t)
            },
            '$' => {
                let t = self.start_dollar(&mut ptr);
                proof {
                    lemma_intern_spans_no_text(iv0, seq![nt.token]);
                }
                Ok(t)
            },
            '?' => {
                let t = self.start_question(&mut ptr);
                proof {
                    lemma_intern_spans_no_text(iv0, seq![nt.token]);
                }
                Ok(t)
            },
            '\'' => {
                let t = self.start_quote(&mut ptr);
                proof {
                    lemma_intern_spans_no_text(iv0, seq![nt.token]);
                }
                Ok(t)
            },
            '{' => {
                let t = self.start_open_brace(&mut ptr);
                proof {
                    lemma_intern_spans_no_text(iv0, seq![nt.token]);
                }
                Ok(t)
            },
            '}' => {
                let t = self.start_closing_brace(&mut ptr);
                proof {
                    lemma_intern_spans_no_text(iv0, seq![nt.token]);
                }
                Ok(t)
            },
            '(' => {
                let t = self.start_open_paren(&mut ptr);
                proof {
                    lemma_intern_spans_no_text(iv0, seq![nt.token]);
                }
                Ok(t)
            },
            ')' => {
                let t = self.start_closing_paren(&mut ptr);
                proof {
                    lemma_intern_spans_no_text(iv0, seq![nt.token]);
                }
                Ok(t)
            },
            '[' => {
                let t = self.start_open_bracket(&mut ptr);
                proof {
                    lemma_intern_spans_no_text(iv0, seq![nt.token]);
                }
                Ok(t)
            },
            ']' => {
                let t = self.start_closing_bracket(&mut ptr);
                proof {
                    lemma_intern_spans_no_text(iv0, seq![nt.token]);
                }
                Ok(t)
            },
            '+' => {
                let t = self.start_add(&mut ptr);
                proof {
                    lemma_intern_spans_no_text(iv0, seq![nt.token]);
                }
                Ok(t)
            },
            '-' => {
                let t = self.start_minus(&mut ptr);
                proof {
                    lemma_intern_spans_no_text(iv0, seq![nt.token]);
                }
                Ok(t)
            },
            '*' => {
                let t = self.start_star(&mut ptr);
                proof {
                    lemma_intern_spans_no_text(iv0, seq![nt.token]);
                }
                Ok(t)
            },
            '/' => {
                let t = self.start_slash(&mut ptr);
                proof {
                    lemma_intern_spans_no_text(iv0, seq![nt.token]);
                }
                Ok(t)
            },
            '%' => {
                let t = self.start_percentage(&mut ptr);
                proof {
                    lemma_intern_spans_no_text(iv0, seq![nt.token]);
                }
                Ok(t)
            },
            '^' => {
                let t = self.start_caret(&mut ptr);
                proof {
                    lemma_intern_spans_no_text(iv0, seq![nt.token]);
                }
                Ok(t)
            },
            _ => {
                proof {
                    assert(sym1(c) is None);
                    assert(!is_prefix_char(c));
                    assert(nt2.error == Some(LexError::UnrecognizedSymbol));
                }
                Err(LexError::UnrecognizedSymbol)
            },
        }
    }
}

/// In the prefix-character arms of `lex`, the first token of the remaining
/// characters is exactly what the lookahead decides.
proof fn lex_prefix_case(
    chars: Seq<char>,
    i: int,
    c: char,
    second: char,
    long: Symbol,
    short: Symbol,
)
    requires
        0 <= i < chars.len(),
        chars[i] == c,
        is_prefix_char(c),
        sym2(c, second) == Some(long),
        prefix_symbol(c) == short,
        forall|d: char| sym2(c, d) is Some ==> d == second,
    ensures
        ({
            let nt2 = next_token(chars.skip(i));
            &&& nt2.error is None
            &&& (i + 1 < chars.len() && chars[i + 1] == second ==> nt2.token == TokenModel::Sym(
                long,
            ) && nt2.used == 2)
            &&& (!(i + 1 < chars.len() && chars[i + 1] == second) ==> nt2.token == TokenModel::Sym(
                short,
            ) && nt2.used == 1)
        }),
{
    let cs = chars.skip(i);
    assert(cs[0] == c);
    if i + 1 < chars.len() {
        assert(cs[1] == chars[i + 1]);
    }
}

} // verus!
