//! Resumable UTF-8 decoder stage.
//!
//! Bytes arrive in chunks of arbitrary size. The decoder yields one Unicode
//! scalar value per complete encoding and, when a chunk ends in the middle of
//! a multi-byte encoding, keeps the bytes read so far in a small pending
//! buffer and continues seamlessly on the next chunk. Its central contract is
//! chunk invariance: the scalar values put out, and the verdict on the
//! stream, depend only on the concatenated bytes, never on where the stream
//! was split ([`lemma_decoder_chunk_invariance`]).

use vstd::prelude::*;
use vstd::utf8::*;

verus! {

/// Why a byte stream was rejected as UTF-8. A rejection is permanent: the
/// decoder yields no further scalar values for that stream.
#[derive(Clone, Copy, PartialEq, Eq, Structural, Debug)]
pub enum Utf8Error {
    /// A byte in leading position is a continuation byte or one of the byte
    /// values no UTF-8 encoding uses.
    InvalidLeading,
    /// A byte inside a multi-byte encoding does not have the continuation
    /// pattern.
    InvalidCont,
    /// The encoded value is overlong, a surrogate, or beyond the last Unicode
    /// scalar value.
    InvalidScalarValue,
}

/// One decoder step from the caller's side: a finished scalar value, or a
/// request to supply more bytes before one can be finished.
#[derive(Clone, Copy, PartialEq, Eq, Structural, Debug)]
pub enum CharResult {
    Scalar(char),
    NeedMoreU8,
}

/// How many bytes an encoding beginning with `b` occupies; 0 when no encoding
/// begins with `b`.
pub open spec fn seq_len_of_lead(b: u8) -> int {
    if is_leading_byte_width_1(b) {
        1
    } else if is_leading_byte_width_2(b) {
        2
    } else if is_leading_byte_width_3(b) {
        3
    } else if is_leading_byte_width_4(b) {
        4
    } else {
        0
    }
}

/// The bytes at positions 1 to `n - 1` all have the continuation pattern.
pub open spec fn conts_ok(bytes: Seq<u8>, n: int) -> bool {
    forall|j: int| 1 <= j < n ==> is_continuation_byte(bytes[j])
}

/// The encoded value at the front of `bytes` is an acceptable Unicode scalar
/// value: not an overlong encoding, not a surrogate, not beyond U+10FFFF.
pub open spec fn value_ok(bytes: Seq<u8>) -> bool {
    &&& not_overlong_encoding(decode_first_codepoint(bytes), seq_len_of_lead(bytes[0]))
    &&& not_surrogate(decode_first_codepoint(bytes))
}

/// What decoding a whole byte sequence leaves behind: the scalar values of
/// every complete encoding from the front, the trailing bytes of an encoding
/// that has begun but not ended, and the error that stopped decoding, if any.
#[verifier::ext_equal]
pub struct DecodeState {
    pub scalars: Seq<char>,
    pub rest: Seq<u8>,
    pub error: Option<Utf8Error>,
}

/// The state of a decoder that has consumed nothing.
pub open spec fn start_state() -> DecodeState {
    DecodeState { scalars: seq![], rest: seq![], error: None }
}

/// Decodes `bytes` completely: every full, well-formed encoding from the
/// front becomes a scalar value; a trailing incomplete encoding whose bytes
/// are unobjectionable so far is kept as `rest`; the first malformed byte or
/// value stops decoding with an error.
pub open spec fn decode_all(bytes: Seq<u8>) -> DecodeState
    decreases bytes.len(),
{
    if bytes.len() == 0 {
        start_state()
    } else {
        let n = seq_len_of_lead(bytes[0]);
        if n == 0 {
            DecodeState { scalars: seq![], rest: seq![], error: Some(Utf8Error::InvalidLeading) }
        } else if bytes.len() < n {
            if conts_ok(bytes, bytes.len() as int) {
                DecodeState { scalars: seq![], rest: bytes, error: None }
            } else {
                DecodeState { scalars: seq![], rest: seq![], error: Some(Utf8Error::InvalidCont) }
            }
        } else if !conts_ok(bytes, n) {
            DecodeState { scalars: seq![], rest: seq![], error: Some(Utf8Error::InvalidCont) }
        } else if !value_ok(bytes) {
            DecodeState {
                scalars: seq![],
                rest: seq![],
                error: Some(Utf8Error::InvalidScalarValue),
            }
        } else {
            let tail = decode_all(bytes.skip(n));
            DecodeState {
                scalars: seq![decode_first_codepoint(bytes) as char] + tail.scalars,
                rest: tail.rest,
                error: tail.error,
            }
        }
    }
}

/// Encoding distributes over concatenation: the bytes of `a + b` are the
/// bytes of `a` followed by the bytes of `b`.
pub proof fn lemma_encode_utf8_app(a: Seq<char>, b: Seq<char>)
    ensures
        encode_utf8(a + b) == encode_utf8(a) + encode_utf8(b),
    decreases a.len(),
{
    if a.len() == 0 {
        assert(a + b =~= b);
        assert(encode_utf8(a) + encode_utf8(b) =~= encode_utf8(b));
    } else {
        assert((a + b)[0] == a[0]);
        assert((a + b).drop_first() =~= a.drop_first() + b);
        lemma_encode_utf8_app(a.drop_first(), b);
        assert(encode_utf8(a + b) =~= encode_utf8(a) + encode_utf8(b));
    }
}

/// Decoding is compositional: decoding `a + b` decodes `a` first and then
/// continues on `b` prefixed by whatever incomplete encoding `a` left behind.
/// This is what lets the resumable decoder handle one chunk at a time.
pub proof fn lemma_decode_all_append(a: Seq<u8>, b: Seq<u8>)
    requires
        decode_all(a).error is None,
    ensures
        decode_all(a + b).scalars == decode_all(a).scalars + decode_all(
            decode_all(a).rest + b,
        ).scalars,
        decode_all(a + b).rest == decode_all(decode_all(a).rest + b).rest,
        decode_all(a + b).error == decode_all(decode_all(a).rest + b).error,
    decreases a.len(),
{
    if a.len() == 0 {
        assert(a + b =~= b);
        assert(decode_all(a).rest + b =~= b);
        assert(decode_all(a).scalars + decode_all(b).scalars =~= decode_all(b).scalars);
    } else {
        let x = a + b;
        let n = seq_len_of_lead(a[0]);
        assert(x[0] == a[0]);
        if a.len() < n {
            assert(decode_all(a).rest + b =~= x);
            assert(decode_all(a).scalars + decode_all(x).scalars =~= decode_all(x).scalars);
        } else {
            assert(forall|j: int| 0 <= j < n ==> x[j] == a[j]);
            assert(conts_ok(x, n));
            assert(decode_first_codepoint(x) == decode_first_codepoint(a));
            assert(value_ok(x) == value_ok(a));
            let askip = a.skip(n);
            assert(x.skip(n) =~= askip + b);
            lemma_decode_all_append(askip, b);
            let c = decode_first_codepoint(a) as char;
            assert(decode_all(x).scalars =~= decode_all(a).scalars + decode_all(
                decode_all(a).rest + b,
            ).scalars);
        }
    }
}

/// A decode error is final: whatever bytes still arrive, the scalars already
/// put out and the verdict on the stream do not change.
pub proof fn lemma_decode_all_error_stable(a: Seq<u8>, b: Seq<u8>)
    requires
        decode_all(a).error is Some,
    ensures
        decode_all(a + b).error == decode_all(a).error,
        decode_all(a + b).scalars == decode_all(a).scalars,
    decreases a.len(),
{
    let x = a + b;
    assert(a.len() > 0);
    assert(x[0] == a[0]);
    let n = seq_len_of_lead(a[0]);
    if n == 0 {
    } else if a.len() < n {
        assert(!conts_ok(a, a.len() as int));
        let j = choose|j: int| 1 <= j < a.len() && !is_continuation_byte(a[j]);
        assert(x[j] == a[j]);
        if x.len() < n {
            assert(!conts_ok(x, x.len() as int));
        } else {
            assert(!conts_ok(x, n));
        }
    } else if !conts_ok(a, n) {
        let j = choose|j: int| 1 <= j < n && !is_continuation_byte(a[j]);
        assert(x[j] == a[j]);
        assert(!conts_ok(x, n));
    } else {
        assert(forall|j: int| 0 <= j < n ==> x[j] == a[j]);
        assert(decode_first_codepoint(x) == decode_first_codepoint(a));
        if !value_ok(a) {
        } else {
            let askip = a.skip(n);
            assert(x.skip(n) =~= askip + b);
            lemma_decode_all_error_stable(askip, b);
            assert(decode_all(x).scalars =~= decode_all(a).scalars);
        }
    }
}

/// Ties the incremental model to the standard notion of UTF-8 validity: a
/// byte sequence is valid UTF-8 exactly when decoding it raises no error and
/// leaves no encoding half open, and the scalar values are then the usual
/// UTF-8 decoding of the whole sequence.
pub proof fn lemma_decode_all_valid_utf8(bytes: Seq<u8>)
    ensures
        valid_utf8(bytes) <==> (decode_all(bytes).error is None && decode_all(bytes).rest.len()
            == 0),
        valid_utf8(bytes) ==> decode_all(bytes).scalars == decode_utf8(bytes),
    decreases bytes.len(),
{
    if bytes.len() == 0 {
    } else {
        let n = seq_len_of_lead(bytes[0]);
        if valid_utf8(bytes) {
            assert(valid_first_scalar(bytes));
            assert(length_of_first_codepoint(bytes) == n);
            assert(bytes.len() >= n);
            assert(conts_ok(bytes, n));
            assert(value_ok(bytes));
            assert(pop_first_scalar(bytes) =~= bytes.skip(n));
            lemma_decode_all_valid_utf8(bytes.skip(n));
            assert(decode_all(bytes).scalars =~= decode_utf8(bytes));
        } else if decode_all(bytes).error is None && decode_all(bytes).rest.len() == 0 {
            assert(n >= 1);
            assert(bytes.len() >= n) by {
                if bytes.len() < n {
                    assert(decode_all(bytes).rest == bytes);
                }
            }
            assert(conts_ok(bytes, n) && value_ok(bytes));
            assert(valid_leading_and_continuation_bytes_first_codepoint(bytes));
            assert(length_of_first_codepoint(bytes) == n);
            assert(valid_first_scalar(bytes));
            assert(pop_first_scalar(bytes) =~= bytes.skip(n));
            lemma_decode_all_valid_utf8(bytes.skip(n));
            assert(valid_utf8(bytes.skip(n)));
            assert(false);
        }
    }
}

/// Relies on char::from_u32: it returns `Some` exactly for Unicode scalar
/// values (not in the surrogate range, at most U+10FFFF), and the resulting
/// char has the given value.
pub assume_specification[ char::from_u32 ](v: u32) -> (r: Option<char>)
    ensures
        match r {
            Some(c) => is_scalar(v) && c as u32 == v,
            None => !is_scalar(v),
        },
;

/// Exec mirror of [`seq_len_of_lead`].
fn len_of_lead(b: u8) -> (n: usize)
    ensures
        n as int == seq_len_of_lead(b),
{
    if b < 0x80 {
        1
    } else if b < 0xc0 {
        0
    } else if b < 0xe0 {
        2
    } else if b < 0xf0 {
        3
    } else if b < 0xf8 {
        4
    } else {
        0
    }
}

/// Exec mirror of [`is_continuation_byte`].
fn is_cont(b: u8) -> (r: bool)
    ensures
        r == is_continuation_byte(b),
{
    b >= 0x80 && b <= 0xbf
}

/// The first `n` of the four bytes, as the window a single encoding occupies.
pub open spec fn window_seq(b0: u8, b1: u8, b2: u8, b3: u8, n: int) -> Seq<u8> {
    seq![b0, b1, b2, b3].take(n)
}

/// Decodes one complete `n`-byte window whose lead and continuation patterns
/// have already been checked, yielding its scalar value, or `None` when the
/// encoded value is overlong, a surrogate, or beyond U+10FFFF.
fn decode_window(b0: u8, b1: u8, b2: u8, b3: u8, n: usize) -> (r: Option<char>)
    requires
        1 <= n <= 4,
        n as int == seq_len_of_lead(b0),
        n >= 2 ==> is_continuation_byte(b1),
        n >= 3 ==> is_continuation_byte(b2),
        n >= 4 ==> is_continuation_byte(b3),
    ensures
        ({
            let w = window_seq(b0, b1, b2, b3, n as int);
            match r {
                Some(c) => value_ok(w) && c == (decode_first_codepoint(w) as char) && c as u32
                    == decode_first_codepoint(w),
                None => !value_ok(w),
            }
        }),
{
    let ghost w = window_seq(b0, b1, b2, b3, n as int);
    proof {
        assert(w[0] == b0);
        assert(n >= 2 ==> w[1] == b1);
        assert(n >= 3 ==> w[2] == b2);
        assert(n >= 4 ==> w[3] == b3);
    }
    let v: u32;
    if n == 1 {
        v = (b0 & 0x7f) as u32;
        proof {
            assert(v == decode_first_codepoint(w));
            assert(v <= 0x7f) by (bit_vector)
                requires
                    v == (b0 & 0x7f) as u32,
            ;
        }
    } else if n == 2 {
        v = (((b0 & 0x1f) as u32) << 6) | ((b1 & 0x3f) as u32);
        proof {
            assert(v == decode_first_codepoint(w));
            assert(v <= 0x7ff) by (bit_vector)
                requires
                    v == (((b0 & 0x1f) as u32) << 6) | ((b1 & 0x3f) as u32),
            ;
        }
        if v < 0x80 {
            return None;
        }
    } else if n == 3 {
        v = (((b0 & 0x0f) as u32) << 12) | (((b1 & 0x3f) as u32) << 6) | ((b2 & 0x3f) as u32);
        proof {
            assert(v == decode_first_codepoint(w));
            assert(v <= 0xffff) by (bit_vector)
                requires
                    v == (((b0 & 0x0f) as u32) << 12) | (((b1 & 0x3f) as u32) << 6) | ((b2
                        & 0x3f) as u32),
            ;
        }
        if v < 0x800 {
            return None;
        }
        if v >= 0xd800 && v <= 0xdfff {
            return None;
        }
    } else {
        v = (((b0 & 0x07) as u32) << 18) | (((b1 & 0x3f) as u32) << 12) | (((b2 & 0x3f) as u32)
            << 6) | ((b3 & 0x3f) as u32);
        proof {
            assert(v == decode_first_codepoint(w));
            assert(v >= 0x10000 ==> v > 0xdfff);
        }
        if v < 0x10000 || v > 0x10ffff {
            return None;
        }
    }
    proof {
        assert(value_ok(w));
        assert(is_scalar(v));
    }
    match char::from_u32(v) {
        Some(c) => {
            proof {
                char_u32_cast(c, v);
            }
            Some(c)
        },
        None => {
            proof {
                assert(false);
            }
            None
        },
    }
}

/// Decodes the single scalar value whose encoding begins at `*start`,
/// advancing `*start` past it; `None`, with `*start` unmoved, when no
/// complete, well-formed encoding begins there.
pub fn parse_utf8(input: &[u8], start: &mut usize) -> (r: Option<char>)
    requires
        *old(start) <= input@.len(),
    ensures
        ({
            let tail = input@.skip(*old(start) as int);
            match r {
                Some(c) => {
                    &&& valid_first_scalar(tail)
                    &&& c as u32 == decode_first_scalar(tail)
                    &&& c == (decode_first_scalar(tail) as char)
                    &&& *final(start) == *old(start) + length_of_first_scalar(tail)
                },
                None => !valid_first_scalar(tail) && *final(start) == *old(start),
            }
        }),
{
    let ghost tail = input@.skip(*start as int);
    let s = *start;
    let len = input.len();
    if s >= len {
        return None;
    }
    let b0 = input[s];
    proof {
        assert(tail[0] == b0);
    }
    let n = len_of_lead(b0);
    if n == 0 {
        return None;
    }
    if len - s < n {
        proof {
            assert(tail.len() < n);
        }
        return None;
    }
    let b1: u8 = if n >= 2 {
        input[s + 1]
    } else {
        0
    };
    let b2: u8 = if n >= 3 {
        input[s + 2]
    } else {
        0
    };
    let b3: u8 = if n >= 4 {
        input[s + 3]
    } else {
        0
    };
    proof {
        assert(n >= 2 ==> tail[1] == b1);
        assert(n >= 3 ==> tail[2] == b2);
        assert(n >= 4 ==> tail[3] == b3);
    }
    if n >= 2 && !is_cont(b1) {
        return None;
    }
    if n >= 3 && !is_cont(b2) {
        return None;
    }
    if n >= 4 && !is_cont(b3) {
        return None;
    }
    let ghost w = window_seq(b0, b1, b2, b3, n as int);
    proof {
        assert(decode_first_codepoint(w) == decode_first_codepoint(tail));
        assert(length_of_first_codepoint(tail) == n);
        assert(valid_leading_and_continuation_bytes_first_codepoint(tail));
    }
    match decode_window(b0, b1, b2, b3, n) {
        Some(c) => {
            proof {
                assert(valid_first_scalar(tail));
            }
            *start = s + n;
            Some(c)
        },
        None => {
            proof {
                assert(!value_ok(w));
                assert(!valid_first_scalar(tail));
            }
            None
        },
    }
}

/// The decoder stage: an explicit state machine in place of a suspended call
/// stack. Between resumes it owns nothing but the bytes of the one encoding
/// that has begun and not yet ended (at most 3 of them), plus the error that
/// permanently stopped the stream, if any; it never retains a chunk.
pub struct Utf8Decoder {
    pending: Vec<u8>,
    failed: Option<Utf8Error>,
}

impl Utf8Decoder {
    /// The bytes of the encoding currently suspended mid-sequence.
    pub closed spec fn rest(&self) -> Seq<u8> {
        self.pending@
    }

    /// The error that stopped this stream, if one was raised.
    pub closed spec fn failure(&self) -> Option<Utf8Error> {
        self.failed
    }

    /// The pending buffer is a proper open prefix of one encoding: shorter
    /// than the width its lead byte announces, with every later byte a
    /// continuation byte.
    pub closed spec fn wf(&self) -> bool {
        self.failed is None ==> {
            &&& self.pending@.len() < 4
            &&& (self.pending@.len() > 0 ==> {
                &&& self.pending@.len() < seq_len_of_lead(self.pending@[0])
                &&& conts_ok(self.pending@, self.pending@.len() as int)
            })
        }
    }

    /// A decoder that has consumed nothing.
    pub fn new() -> (r: Utf8Decoder)
        ensures
            r.wf(),
            r.rest().len() == 0,
            r.failure() is None,
    {
        Utf8Decoder { pending: Vec::new(), failed: None }
    }

    proof fn lemma_wf_decode_rest(&self)
        requires
            self.wf(),
            self.failure() is None,
        ensures
            decode_all(self.rest()) == (DecodeState {
                scalars: seq![],
                rest: self.rest(),
                error: None,
            }),
    {
        let p = self.rest();
        if p.len() == 0 {
            assert(decode_all(p).rest =~= p);
            assert(decode_all(p) =~= (DecodeState { scalars: seq![], rest: p, error: None }));
        } else {
            assert(decode_all(p) =~= (DecodeState { scalars: seq![], rest: p, error: None }));
        }
    }

    /// Whether a multi-byte encoding stands open, awaiting its continuation
    /// bytes from the next chunk.
    pub fn mid_sequence(&self) -> (r: bool)
        ensures
            r == (self.rest().len() != 0),
    {
        self.pending.len() > 0
    }

    /// Hands the decoder the next byte of the stream. Yields the scalar value
    /// the byte completes, asks for more bytes when the encoding is still
    /// open, or reports the error that this byte makes unavoidable; after an
    /// error the same error is reported again and nothing further is decoded.
    pub fn push_byte(&mut self, b: u8) -> (r: Result<CharResult, Utf8Error>)
        requires
            old(self).wf(),
        ensures
            final(self).wf(),
            old(self).failure() matches Some(e) ==> r == Result::<CharResult, Utf8Error>::Err(e)
                && *final(self) == *old(self),
            old(self).failure() is None ==> ({
                let d = decode_all(old(self).rest().push(b));
                match d.error {
                    Some(e) => r == Result::<CharResult, Utf8Error>::Err(e)
                        && final(self).failure() == Some(e) && d.scalars.len() == 0,
                    None => {
                        &&& final(self).failure() is None
                        &&& final(self).rest() == d.rest
                        &&& (if d.scalars.len() == 1 {
                            r == Result::<CharResult, Utf8Error>::Ok(
                                CharResult::Scalar(d.scalars[0]),
                            ) && d.rest.len() == 0
                        } else {
                            d.scalars.len() == 0 && r == Result::<CharResult, Utf8Error>::Ok(
                                CharResult::NeedMoreU8,
                            )
                        })
                    },
                }
            }),
    {
        if let Some(e) = self.failed {
            return Err(e);
        }
        let ghost p = self.pending@;
        self.pending.push(b);
        let ghost q = self.pending@;
        proof {
            assert(q =~= p.push(b));
            assert(q[0] == if p.len() == 0 {
                b
            } else {
                p[0]
            });
        }
        let b0 = self.pending[0];
        let n = len_of_lead(b0);
        if n == 0 {
            self.pending.clear();
            self.failed = Some(Utf8Error::InvalidLeading);
            return Err(Utf8Error::InvalidLeading);
        }
        let len = self.pending.len();
        proof {
            assert(len <= n) by {
                if p.len() > 0 {
                    assert(p[0] == q[0]);
                }
            }
        }
        if len < n {
            if len >= 2 && !is_cont(b) {
                proof {
                    assert(q[len - 1] == b);
                    assert(!conts_ok(q, q.len() as int));
                }
                self.pending.clear();
                self.failed = Some(Utf8Error::InvalidCont);
                return Err(Utf8Error::InvalidCont);
            }
            proof {
                assert(q.len() < n);
                assert(forall|j: int| 1 <= j < q.len() - 1 ==> q[j] == p[j]);
                assert(q[q.len() - 1] == b);
                assert(conts_ok(q, q.len() as int));
                assert(decode_all(q) == (DecodeState { scalars: seq![], rest: q, error: None }));
            }
            return Ok(CharResult::NeedMoreU8);
        }
        if n >= 2 && !is_cont(b) {
            proof {
                assert(q[len - 1] == b);
                assert(len == n);
                assert(!conts_ok(q, n as int));
            }
            self.pending.clear();
            self.failed = Some(Utf8Error::InvalidCont);
            return Err(Utf8Error::InvalidCont);
        }
        let b1: u8 = if n >= 2 {
            self.pending[1]
        } else {
            0
        };
        let b2: u8 = if n >= 3 {
            self.pending[2]
        } else {
            0
        };
        let b3: u8 = if n >= 4 {
            self.pending[3]
        } else {
            0
        };
        proof {
            assert(len == n);
            assert(forall|j: int| 1 <= j < n - 1 ==> q[j] == p[j]);
            assert(q[n - 1] == b);
            assert(conts_ok(q, n as int));
        }
        let ghost w = window_seq(b0, b1, b2, b3, n as int);
        proof {
            assert(forall|j: int| 0 <= j < n ==> w[j] == q[j]);
            assert(decode_first_codepoint(w) == decode_first_codepoint(q));
            assert(value_ok(w) == value_ok(q));
        }
        match decode_window(b0, b1, b2, b3, n) {
            Some(c) => {
                self.pending.clear();
                proof {
                    assert(q.skip(n as int) =~= Seq::<u8>::empty());
                    assert(decode_all(Seq::<u8>::empty()) == start_state());
                    assert(decode_all(q.skip(n as int)) == start_state());
                    assert(decode_all(q).scalars =~= seq![c]);
                    assert(decode_all(q).rest =~= Seq::<u8>::empty());
                }
                Ok(CharResult::Scalar(c))
            },
            None => {
                self.pending.clear();
                self.failed = Some(Utf8Error::InvalidScalarValue);
                Err(Utf8Error::InvalidScalarValue)
            },
        }
    }

    /// Resumes the decoder on one chunk: every scalar value the stream allows
    /// so far is appended to `out`, and a split encoding at the chunk's end is
    /// stashed to be continued on the next call. The chunk is read only for
    /// the duration of this call, never retained. Once the stream has failed,
    /// the same error is returned and nothing further is decoded.
    pub fn feed(&mut self, chunk: &[u8], out: &mut Vec<char>) -> (r: Option<Utf8Error>)
        requires
            old(self).wf(),
        ensures
            final(self).wf(),
            old(self).failure() matches Some(e) ==> r == Some(e) && *final(self) == *old(self)
                && final(out)@ == old(out)@,
            old(self).failure() is None ==> ({
                let d = decode_all(old(self).rest() + chunk@);
                &&& final(out)@ == old(out)@ + d.scalars
                &&& r == d.error
                &&& final(self).failure() == d.error
                &&& (d.error is None ==> final(self).rest() == d.rest)
            }),
    {
        if let Some(e) = self.failed {
            return Some(e);
        }
        let ghost p0 = self.rest();
        let ghost out0 = out@;
        let n = chunk.len();
        let mut i: usize = 0;
        while i < n
            invariant
                n == chunk@.len(),
                i <= n,
                self.wf(),
                self.failure() is None,
                old(self).failure() is None,
                p0 == old(self).rest(),
                out0 == old(out)@,
                ({
                    let dp = decode_all(p0 + chunk@.take(i as int));
                    &&& dp.error is None
                    &&& self.rest() == dp.rest
                    &&& out@ == out0 + dp.scalars
                }),
            decreases n - i,
        {
            let b = chunk[i];
            let ghost consumed = p0 + chunk@.take(i as int);
            let ghost dpre = decode_all(consumed);
            proof {
                lemma_decode_all_append(consumed, seq![b]);
                assert(consumed + seq![b] =~= p0 + chunk@.take(i as int + 1));
                assert(self.rest().push(b) =~= dpre.rest + seq![b]);
            }
            match self.push_byte(b) {
                Ok(CharResult::Scalar(c)) => {
                    out.push(c);
                    proof {
                        assert(out@ =~= out0 + decode_all(p0 + chunk@.take(i as int + 1)).scalars);
                    }
                },
                Ok(CharResult::NeedMoreU8) => {
                    proof {
                        assert(out@ =~= out0 + decode_all(p0 + chunk@.take(i as int + 1)).scalars);
                    }
                },
                Err(e) => {
                    proof {
                        lemma_decode_all_error_stable(
                            p0 + chunk@.take(i as int + 1),
                            chunk@.skip(i as int + 1),
                        );
                        assert((p0 + chunk@.take(i as int + 1)) + chunk@.skip(i as int + 1) =~= p0
                            + chunk@);
                        assert(out@ =~= out0 + decode_all(p0 + chunk@).scalars);
                    }
                    return Some(e);
                },
            }
            i += 1;
        }
        proof {
            assert(p0 + chunk@.take(n as int) =~= p0 + chunk@);
        }
        None
    }
}

/// One resume of the decoder on a chunk, at the level of the model: a failed
/// stream stays frozen, otherwise the pending bytes are continued into the
/// chunk.
pub open spec fn feed_step(st: DecodeState, chunk: Seq<u8>) -> DecodeState {
    if st.error is Some {
        st
    } else {
        let d = decode_all(st.rest + chunk);
        DecodeState { scalars: st.scalars + d.scalars, rest: d.rest, error: d.error }
    }
}

/// The decoder's model state after being resumed on each chunk in order.
pub open spec fn feed_all(st: DecodeState, chunks: Seq<Seq<u8>>) -> DecodeState
    decreases chunks.len(),
{
    if chunks.len() == 0 {
        st
    } else {
        feed_all(feed_step(st, chunks[0]), chunks.drop_first())
    }
}

/// All chunks, joined back into the single byte stream they deliver.
pub open spec fn concat_chunks(chunks: Seq<Seq<u8>>) -> Seq<u8>
    decreases chunks.len(),
{
    if chunks.len() == 0 {
        seq![]
    } else {
        chunks[0] + concat_chunks(chunks.drop_first())
    }
}

proof fn lemma_feed_all_failed(st: DecodeState, chunks: Seq<Seq<u8>>)
    requires
        st.error is Some,
    ensures
        feed_all(st, chunks) == st,
    decreases chunks.len(),
{
    if chunks.len() == 0 {
    } else {
        lemma_feed_all_failed(st, chunks.drop_first());
    }
}

proof fn lemma_feed_all_decode(h: Seq<u8>, chunks: Seq<Seq<u8>>)
    ensures
        ({
            let f = feed_all(decode_all(h), chunks);
            let d = decode_all(h + concat_chunks(chunks));
            &&& f.scalars == d.scalars
            &&& f.error == d.error
            &&& (f.error is None ==> f.rest == d.rest)
        }),
    decreases chunks.len(),
{
    let st = decode_all(h);
    if chunks.len() == 0 {
        assert(h + concat_chunks(chunks) =~= h);
    } else {
        let c0 = chunks[0];
        if st.error is Some {
            lemma_feed_all_failed(st, chunks);
            lemma_decode_all_error_stable(h, concat_chunks(chunks));
        } else {
            lemma_decode_all_append(h, c0);
            assert(feed_step(st, c0) =~= decode_all(h + c0));
            lemma_feed_all_decode(h + c0, chunks.drop_first());
            assert((h + c0) + concat_chunks(chunks.drop_first()) =~= h + concat_chunks(chunks));
        }
    }
}

/// Chunk invariance of the decoder: two chunkings that deliver the same byte
/// stream yield exactly the same scalar values and the same verdict, no
/// matter where the boundaries fall.
pub proof fn lemma_decoder_chunk_invariance(c1: Seq<Seq<u8>>, c2: Seq<Seq<u8>>)
    requires
        concat_chunks(c1) == concat_chunks(c2),
    ensures
        feed_all(start_state(), c1).scalars == feed_all(start_state(), c2).scalars,
        feed_all(start_state(), c1).error == feed_all(start_state(), c2).error,
{
    assert(decode_all(Seq::<u8>::empty()) == start_state());
    lemma_feed_all_decode(Seq::<u8>::empty(), c1);
    lemma_feed_all_decode(Seq::<u8>::empty(), c2);
    assert(Seq::<u8>::empty() + concat_chunks(c1) =~= concat_chunks(c1));
    assert(Seq::<u8>::empty() + concat_chunks(c2) =~= concat_chunks(c2));
}

/// For a stream that is valid UTF-8 once chunk boundaries are removed, any
/// chunking decodes without error to exactly the scalar values of the whole
/// stream.
pub proof fn lemma_decoder_chunk_invariance_valid(chunks: Seq<Seq<u8>>)
    requires
        valid_utf8(concat_chunks(chunks)),
    ensures
        feed_all(start_state(), chunks).error is None,
        feed_all(start_state(), chunks).scalars == decode_utf8(concat_chunks(chunks)),
{
    assert(decode_all(Seq::<u8>::empty()) == start_state());
    lemma_feed_all_decode(Seq::<u8>::empty(), chunks);
    assert(Seq::<u8>::empty() + concat_chunks(chunks) =~= concat_chunks(chunks));
    lemma_decode_all_valid_utf8(concat_chunks(chunks));
}

/// Decodes one byte slice in a single resume: the scalar values of every
/// complete encoding in it, or the first error. Bytes of an encoding that the
/// slice cuts off at its end are awaiting input and yield no scalar value.
pub fn str_to_char_slice(input: &[u8]) -> (r: Result<Vec<char>, Utf8Error>)
    ensures
        match r {
            Ok(chars) => decode_all(input@).error is None && chars@ == decode_all(input@).scalars,
            Err(e) => decode_all(input@).error == Some(e),
        },
        valid_utf8(input@) ==> (r matches Ok(chars) && chars@ == decode_utf8(input@)),
{
    let mut dec = Utf8Decoder::new();
    let mut out: Vec<char> = Vec::new();
    let verdict = dec.feed(input, &mut out);
    proof {
        assert(Seq::<u8>::empty() + input@ =~= input@);
        lemma_decode_all_valid_utf8(input@);
    }
    match verdict {
        None => Ok(out),
        Some(e) => Err(e),
    }
}

} // verus!
