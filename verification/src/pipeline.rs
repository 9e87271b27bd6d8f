//! Pipeline coordinator.
//!
//! Wires the byte-chunk source, the UTF-8 decoder and the token recognizer
//! together under one suspend/resume protocol: a chunk is decoded as far as
//! the stream allows, every finished scalar value is handed straight to the
//! recognizer, and each stage keeps only its own small suspended state
//! between calls. The caller owns the interner and lends it per call, so the
//! handles in tokens outlive the pipeline. Errors carry their originating
//! stage and are fatal: the stream is closed from the first one on.

use vstd::prelude::*;
use vstd::utf8::decode_utf8;
use vstd::utf8::valid_utf8;
use crate::interner::StringInterner;
use crate::recognizer::Recognizer;
use crate::recognizer::ScanState;
use crate::recognizer::intern_spans;
use crate::recognizer::lemma_intern_spans_app;
use crate::recognizer::lemma_recognizer_chunk_invariance;
use crate::recognizer::lemma_scan_chars_app;
use crate::recognizer::lemma_scan_chars_frozen;
use crate::recognizer::lemma_scan_tokens_shift;
use crate::recognizer::rec_finish;
use crate::recognizer::rec_step;
use crate::recognizer::scan_chars;
use crate::recognizer::scan_finish;
use crate::recognizer::scan_start;
use crate::recognizer::scan_step;
use crate::recognizer::tokenize;
use crate::token::LexError;
use crate::token::Token;
use crate::token::TokenModel;
use crate::token::lemma_prefix_of_trans;
use crate::token::lemma_tokens_match_concat;
use crate::token::tokens_match;
use crate::utf8::Utf8Decoder;
use crate::utf8::Utf8Error;
use crate::utf8::decode_all;
use crate::utf8::lemma_decode_all_append;
use crate::utf8::lemma_decode_all_valid_utf8;

verus! {

/// The error the pipeline reports for a byte stream, with its originating
/// stage: a character the recognizer cannot start a token with comes earlier
/// in the stream than any malformed byte the decoder could still reach, so it
/// wins; otherwise the decoder's verdict stands.
pub open spec fn pipe_error(bytes: Seq<u8>) -> Option<LexError> {
    let d = decode_all(bytes);
    let sc = scan_chars(scan_start(), d.scalars);
    if sc.error is Some {
        sc.error
    } else {
        match d.error {
            Some(e) => Some(LexError::Decode(e)),
            None => None,
        }
    }
}

/// The tokens the pipeline has put out after consuming a byte stream, before
/// end of stream is signalled.
pub open spec fn pipe_tokens(bytes: Seq<u8>) -> Seq<TokenModel> {
    scan_chars(scan_start(), decode_all(bytes).scalars).tokens
}

/// The pipeline's verdict once end of stream is signalled after `bytes`: an
/// encoding cut off by the end of the stream is malformed.
pub open spec fn pipe_finish_error(bytes: Seq<u8>) -> Option<LexError> {
    if pipe_error(bytes) is Some {
        pipe_error(bytes)
    } else if decode_all(bytes).rest.len() > 0 {
        Some(LexError::Decode(Utf8Error::InvalidCont))
    } else {
        None
    }
}

/// All tokens of the finished stream `bytes`: what was put out while
/// consuming it and, when nothing went wrong, the final flush ending in the
/// end marker.
pub open spec fn pipe_finish_tokens(bytes: Seq<u8>) -> Seq<TokenModel> {
    let d = decode_all(bytes);
    let sc = scan_chars(scan_start(), d.scalars);
    if sc.error is Some || d.error is Some || d.rest.len() > 0 {
        sc.tokens
    } else {
        scan_finish(sc).tokens
    }
}

/// Chunk invariance of the whole pipeline: for a byte stream that is valid
/// UTF-8, the finished pipeline's tokens and verdict — the bytes fed in any
/// chunks whatever — are exactly those of tokenizing the decoded characters
/// in one batch.
pub proof fn lemma_pipeline_batch(bytes: Seq<u8>)
    requires
        valid_utf8(bytes),
    ensures
        pipe_finish_tokens(bytes) == tokenize(decode_utf8(bytes)).tokens,
        pipe_finish_error(bytes) == tokenize(decode_utf8(bytes)).error,
{
    lemma_decode_all_valid_utf8(bytes);
    let chars = decode_utf8(bytes);
    lemma_recognizer_chunk_invariance(chars);
    let sc = scan_chars(scan_start(), chars);
    if sc.error is Some {
        assert(scan_finish(sc) == sc);
    }
}

/// The coordinator: owns the decoder's and the recognizer's suspended states
/// for one stream's lifetime and relays control between them. Beyond those
/// two small states it buffers nothing across calls.
pub struct Pipeline {
    decoder: Utf8Decoder,
    recognizer: Recognizer,
    failed: Option<LexError>,
    history: Ghost<Seq<u8>>,
    emitted: Ghost<Seq<TokenModel>>,
}

impl Pipeline {
    /// Every byte the pipeline has consumed, over all chunks.
    pub closed spec fn bytes(&self) -> Seq<u8> {
        self.history@
    }

    /// The model tokens the pipeline has put out so far.
    pub closed spec fn tokens(&self) -> Seq<TokenModel> {
        self.emitted@
    }

    /// The error that closed this stream, if one was raised.
    pub closed spec fn failure(&self) -> Option<LexError> {
        self.failed
    }

    /// The stage states agree with decoding and then scanning everything
    /// consumed so far.
    pub closed spec fn wf(&self) -> bool {
        let d = decode_all(self.history@);
        let sc = scan_chars(scan_start(), d.scalars);
        &&& self.decoder.wf()
        &&& self.recognizer.wf()
        &&& self.emitted@ == sc.tokens
        &&& self.failed == pipe_error(self.history@)
        &&& (self.failed is None ==> {
            &&& d.error is None
            &&& sc.error is None
            &&& self.decoder.failure() is None
            &&& self.decoder.rest() == d.rest
            &&& self.recognizer.failure() is None
            &&& self.recognizer.pending() == sc.pending
        })
    }

    /// A pipeline that has consumed nothing.
    pub fn new() -> (r: Pipeline)
        ensures
            r.wf(),
            r.bytes() == Seq::<u8>::empty(),
            r.tokens() == Seq::<TokenModel>::empty(),
            r.failure() is None,
    {
        let r = Pipeline {
            decoder: Utf8Decoder::new(),
            recognizer: Recognizer::new(),
            failed: None,
            history: Ghost(Seq::empty()),
            emitted: Ghost(Seq::empty()),
        };
        proof {
            assert(decode_all(Seq::<u8>::empty()) == crate::utf8::start_state());
            assert(decode_all(Seq::<u8>::empty()).scalars =~= Seq::<char>::empty());
            assert(scan_chars(scan_start(), Seq::<char>::empty()) == scan_start());
            assert(r.decoder.rest() =~= Seq::<u8>::empty());
            assert(r.recognizer.pending() =~= Seq::<char>::empty());
        }
        r
    }

    /// Resumes the pipeline on one chunk from the byte source: the chunk is
    /// decoded as far as the stream allows, the scalar values drive the
    /// recognizer, and every token finalized on the way is appended to
    /// `out`, text spans interned through `interner`. The chunk is read only
    /// during this call and never retained; an empty chunk means "no data
    /// yet, not end of stream" and changes nothing. The first error closes
    /// the stream; afterwards the same error is reported again and nothing
    /// further is consumed.
    pub fn feed_chunk(
        &mut self,
        interner: &mut StringInterner,
        chunk: &[u8],
        out: &mut Vec<Token>,
    ) -> (r: Option<LexError>)
        requires
            old(self).wf(),
            old(interner).wf(),
        ensures
            final(self).wf(),
            final(interner).wf(),
            old(interner)@.is_prefix_of(final(interner)@),
            old(self).failure() matches Some(e) ==> r == Some(e) && *final(self) == *old(self)
                && final(out)@ == old(out)@ && *final(interner) == *old(interner),
            old(self).failure() is None ==> ({
                let h = old(self).bytes() + chunk@;
                let delta = pipe_tokens(h).skip(old(self).tokens().len() as int);
                &&& final(self).bytes() == h
                &&& old(self).tokens().is_prefix_of(pipe_tokens(h))
                &&& final(self).tokens() == pipe_tokens(h)
                &&& r == pipe_error(h)
                &&& final(self).failure() == pipe_error(h)
                &&& final(out)@.len() == old(out)@.len() + delta.len()
                &&& final(out)@.take(old(out)@.len() as int) == old(out)@
                &&& tokens_match(final(out)@.skip(old(out)@.len() as int), delta, final(interner)@)
                &&& final(interner)@ == intern_spans(old(interner)@, delta)
            }),
    {
        proof {
            assert(old(interner)@.is_prefix_of(old(interner)@));
        }
        if let Some(e) = self.failed {
            return Some(e);
        }
        let ghost h0 = self.history@;
        let ghost h1 = self.history@ + chunk@;
        let ghost s0 = decode_all(h0).scalars;
        let ghost sc0 = scan_chars(scan_start(), s0);
        let ghost t0 = sc0.tokens;
        let ghost iv0 = interner@;
        let ghost o0 = out@;
        let mut fresh: Vec<char> = Vec::new();
        let dec_err = self.decoder.feed(chunk, &mut fresh);
        self.history = Ghost(h1);
        proof {
            lemma_decode_all_append(h0, chunk@);
            assert(decode_all(h1).scalars =~= s0 + fresh@);
        }
        let ghost dec_snap = self.decoder;
        let ghost base0 = (ScanState { tokens: Seq::empty(), pending: sc0.pending, error: None });
        let n = fresh.len();
        let mut j: usize = 0;
        while j < n
            invariant
                n == fresh@.len(),
                j <= n,
                self.decoder == dec_snap,
                self.decoder.wf(),
                dec_err == decode_all(h1).error,
                self.decoder.failure() == decode_all(h1).error,
                dec_err is None ==> self.decoder.rest() == decode_all(h1).rest,
                self.history@ == h1,
                self.failed is None,
                self.recognizer.wf(),
                interner.wf(),
                self.recognizer.failure() is None,
                base0 == (ScanState { tokens: Seq::<TokenModel>::empty(), pending: sc0.pending, error: None }),
                decode_all(h1).scalars == s0 + fresh@,
                sc0 == scan_chars(scan_start(), s0),
                sc0.error is None,
                t0 == sc0.tokens,
                old(self).failure() is None,
                old(self).tokens() == t0,
                h1 == old(self).bytes() + chunk@,
                ({
                    let scj = scan_chars(base0, fresh@.take(j as int));
                    &&& scj.error is None
                    &&& self.recognizer.pending() == scj.pending
                    &&& out@.len() == o0.len() + scj.tokens.len()
                    &&& out@.take(o0.len() as int) == o0
                    &&& tokens_match(out@.skip(o0.len() as int), scj.tokens, interner@)
                    &&& interner@ == intern_spans(iv0, scj.tokens)
                }),
                iv0.is_prefix_of(interner@),
                iv0 == old(interner)@,
                o0 == old(out)@,
            decreases n - j,
        {
            let c = fresh[j];
            let ghost taken = fresh@.take(j as int);
            let ghost scj = scan_chars(base0, taken);
            let ghost o_pre = out@;
            let ghost iv_pre = interner@;
            proof {
                lemma_scan_chars_app(base0, taken, seq![c]);
                assert(taken + seq![c] =~= fresh@.take(j as int + 1));
                assert(seq![c].drop_first() =~= Seq::<char>::empty());
                assert(seq![c][0] == c);
                assert(scan_chars(scan_step(scj, c), Seq::<char>::empty()) == scan_step(scj, c));
                assert(scan_chars(base0, fresh@.take(j as int + 1)) == scan_step(scj, c));
            }
            let verdict = self.recognizer.push_char(interner, out, c);
            match verdict {
                None => {
                    proof {
                        let s = rec_step(scj.pending, c);
                        assert(scan_chars(base0, fresh@.take(j as int + 1)).tokens =~= scj.tokens
                            + s.tokens);
                        assert(out@.skip(o0.len() as int).take(scj.tokens.len() as int) =~= o_pre.skip(
                            o0.len() as int,
                        ));
                        assert(out@.skip(o0.len() as int).skip(scj.tokens.len() as int) =~= out@.skip(
                            o_pre.len() as int,
                        ));
                        lemma_tokens_match_concat(
                            out@.skip(o0.len() as int),
                            scj.tokens,
                            s.tokens,
                            iv_pre,
                            interner@,
                            o_pre.skip(o0.len() as int),
                        );
                        lemma_intern_spans_app(iv0, scj.tokens, s.tokens);
                        lemma_prefix_of_trans(iv0, iv_pre, interner@);
                        assert(out@.take(o0.len() as int) =~= o0);
                    }
                },
                Some(e) => {
                    self.failed = Some(e);
                    proof {
                        let s = rec_step(scj.pending, c);
                        let scj1 = scan_chars(base0, fresh@.take(j as int + 1));
                        assert(scj1.error == Some(e));
                        assert(scj1.tokens =~= scj.tokens + s.tokens);
                        assert(out@.skip(o0.len() as int).take(scj.tokens.len() as int)
                            =~= o_pre.skip(o0.len() as int));
                        assert(out@.skip(o0.len() as int).skip(scj.tokens.len() as int)
                            =~= out@.skip(o_pre.len() as int));
                        lemma_tokens_match_concat(
                            out@.skip(o0.len() as int),
                            scj.tokens,
                            s.tokens,
                            iv_pre,
                            interner@,
                            o_pre.skip(o0.len() as int),
                        );
                        lemma_intern_spans_app(iv0, scj.tokens, s.tokens);
                        lemma_prefix_of_trans(iv0, iv_pre, interner@);
                        assert(out@.take(o0.len() as int) =~= o0);
                        // the full scan freezes at this error
                        lemma_scan_chars_app(base0, fresh@.take(j as int + 1), fresh@.skip(j as int + 1));
                        assert(fresh@.take(j as int + 1) + fresh@.skip(j as int + 1) =~= fresh@);
                        lemma_scan_chars_frozen(scj1, fresh@.skip(j as int + 1));
                        assert(scan_chars(base0, fresh@) == scj1);
                        lemma_full_scan(h1, s0, fresh@, sc0, base0);
                        lemma_prefix_from_shift(t0, scj1.tokens, h1);
                    }
                    self.emitted = Ghost(pipe_tokens(h1));
                    return Some(e);
                },
            }
            j += 1;
        }
        proof {
            assert(fresh@.take(n as int) =~= fresh@);
            lemma_full_scan(h1, s0, fresh@, sc0, base0);
            lemma_prefix_from_shift(t0, scan_chars(base0, fresh@).tokens, h1);
        }
        self.emitted = Ghost(pipe_tokens(h1));
        match dec_err {
            Some(e) => {
                self.failed = Some(LexError::Decode(e));
                Some(LexError::Decode(e))
            },
            None => None,
        }
    }

    /// Signals permanent end of stream from the byte source. A stream that
    /// ends in the middle of a scalar encoding is malformed; otherwise the
    /// recognizer's held span or prefix is flushed as a final token and the
    /// explicit end marker follows it into `out`. On a stream that already
    /// failed, the error is reported instead.
    pub fn finish(&mut self, interner: &mut StringInterner, out: &mut Vec<Token>) -> (r: Option<
        LexError,
    >)
        requires
            old(self).wf(),
            old(interner).wf(),
        ensures
            final(interner).wf(),
            old(interner)@.is_prefix_of(final(interner)@),
            old(self).failure() matches Some(e) ==> r == Some(e) && *final(self) == *old(self)
                && final(out)@ == old(out)@ && *final(interner) == *old(interner),
            old(self).failure() is None ==> ({
                let h = old(self).bytes();
                let delta = pipe_finish_tokens(h).skip(old(self).tokens().len() as int);
                &&& final(self).bytes() == h
                &&& old(self).tokens().is_prefix_of(pipe_finish_tokens(h))
                &&& final(self).tokens() == pipe_finish_tokens(h)
                &&& r == pipe_finish_error(h)
                &&& final(out)@.len() == old(out)@.len() + delta.len()
                &&& final(out)@.take(old(out)@.len() as int) == old(out)@
                &&& tokens_match(final(out)@.skip(old(out)@.len() as int), delta, final(interner)@)
                &&& final(interner)@ == intern_spans(old(interner)@, delta)
            }),
    {
        proof {
            assert(old(interner)@.is_prefix_of(old(interner)@));
        }
        if let Some(e) = self.failed {
            return Some(e);
        }
        let ghost h = self.history@;
        let ghost sc = scan_chars(scan_start(), decode_all(h).scalars);
        let ghost t0 = sc.tokens;
        if self.decoder.mid_sequence() {
            self.failed = Some(LexError::Decode(Utf8Error::InvalidCont));
            proof {
                assert(pipe_finish_tokens(h) == t0);
                lemma_prefix_from_shift_finish(t0, Seq::<TokenModel>::empty(), h);
                assert(out@.take(out@.len() as int) =~= out@);
                assert(out@.skip(out@.len() as int) =~= Seq::<Token>::empty());
                lemma_intern_spans_empty(interner@);
            }
            return Some(LexError::Decode(Utf8Error::InvalidCont));
        }
        let verdict = self.recognizer.finish(interner, out);
        proof {
            let ms = rec_finish(sc.pending);
            assert(pipe_finish_tokens(h) == scan_finish(sc).tokens);
            assert(scan_finish(sc).tokens == t0 + ms);
            lemma_prefix_from_shift_finish(t0, ms, h);
        }
        self.emitted = Ghost(pipe_finish_tokens(h));
        match verdict {
            Some(e) => {
                proof {
                    assert(false);
                }
                Some(e)
            },
            None => None,
        }
    }
}

/// Interning an empty batch leaves the interner contents alone.
proof fn lemma_intern_spans_empty(iv: Seq<Seq<char>>)
    ensures
        intern_spans(iv, Seq::<TokenModel>::empty()) == iv,
{
}

/// As [`lemma_prefix_from_shift`], for the token sequence of the finished
/// stream.
proof fn lemma_prefix_from_shift_finish(t0: Seq<TokenModel>, delta: Seq<TokenModel>, h: Seq<u8>)
    requires
        pipe_finish_tokens(h) == t0 + delta,
    ensures
        t0.is_prefix_of(pipe_finish_tokens(h)),
        pipe_finish_tokens(h).skip(t0.len() as int) == delta,
{
    assert(t0 =~= pipe_finish_tokens(h).subrange(0, t0.len() as int));
    assert(pipe_finish_tokens(h).skip(t0.len() as int) =~= delta);
}

/// The scan of everything decoded so far splits into the tokens already put
/// out and the scan of the freshly decoded characters from the held state.
proof fn lemma_full_scan(
    h1: Seq<u8>,
    s0: Seq<char>,
    fresh: Seq<char>,
    sc0: ScanState,
    base0: ScanState,
)
    requires
        decode_all(h1).scalars == s0 + fresh,
        sc0 == scan_chars(scan_start(), s0),
        sc0.error is None,
        base0 == (ScanState { tokens: Seq::<TokenModel>::empty(), pending: sc0.pending, error: None }),
    ensures
        ({
            let full = scan_chars(scan_start(), decode_all(h1).scalars);
            let b = scan_chars(base0, fresh);
            &&& full.tokens == sc0.tokens + b.tokens
            &&& full.pending == b.pending
            &&& full.error == b.error
        }),
{
    lemma_scan_chars_app(scan_start(), s0, fresh);
    lemma_scan_tokens_shift(sc0, fresh);
}

/// From the split of the full scan, the tokens put out before this chunk are
/// a prefix of all tokens, and the new ones are exactly the tail.
proof fn lemma_prefix_from_shift(t0: Seq<TokenModel>, delta: Seq<TokenModel>, h1: Seq<u8>)
    requires
        pipe_tokens(h1) == t0 + delta,
    ensures
        t0.is_prefix_of(pipe_tokens(h1)),
        pipe_tokens(h1).skip(t0.len() as int) == delta,
{
    assert(t0 =~= pipe_tokens(h1).subrange(0, t0.len() as int));
    assert(pipe_tokens(h1).skip(t0.len() as int) =~= delta);
}

} // verus!
