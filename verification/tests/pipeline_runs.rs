use lexer::interner::StringInterner;
use lexer::pipeline::Pipeline;
use lexer::token::LexError;
use lexer::token::Symbol;
use lexer::token::Token;
use lexer::utf8::Utf8Error;

fn run_chunks(chunks: &[&[u8]]) -> Result<(Vec<Token>, StringInterner), LexError> {
    let mut interner = StringInterner::empty();
    let mut pipe = Pipeline::new();
    let mut out = Vec::new();
    for chunk in chunks.iter() {
        if let Some(e) = pipe.feed_chunk(&mut interner, chunk, &mut out) {
            return Err(e);
        }
    }
    match pipe.finish(&mut interner, &mut out) {
        Some(e) => Err(e),
        None => Ok((out, interner)),
    }
}

#[test]
fn recognizer_chunk_invariance_for_eq_eq() {
    // one chunk
    let (one, _) = run_chunks(&[b"=="]).unwrap();
    assert_eq!(one, vec![Token::Sym(Symbol::EqEq), Token::Eof]);
    // split between the two characters: never two Eq tokens
    let (two, _) = run_chunks(&[b"=", b"="]).unwrap();
    assert_eq!(two, one);
}

#[test]
fn chunk_invariance_every_split_of_mixed_input() {
    let text = "ab\u{e9} <= c";
    let bytes = text.as_bytes();
    let (whole, interner) = run_chunks(&[bytes]).unwrap();
    assert_eq!(whole.len(), 4);
    match (whole[0], whole[2]) {
        (Token::Text(a), Token::Text(b)) => {
            assert_eq!(interner.get(a), "ab\u{e9}");
            assert_eq!(interner.get(b), "c");
        }
        _ => panic!("expected text-span tokens"),
    }
    assert_eq!(whole[1], Token::Sym(Symbol::Le));
    assert_eq!(whole[3], Token::Eof);
    for cut in 0..=bytes.len() {
        let (split, _) = run_chunks(&[&bytes[..cut], &bytes[cut..]]).unwrap();
        assert_eq!(split, whole);
    }
    // one byte at a time
    let singles: Vec<&[u8]> = bytes.chunks(1).collect();
    let (bytewise, _) = run_chunks(&singles).unwrap();
    assert_eq!(bytewise, whole);
}

#[test]
fn end_of_stream_flushes_open_span() {
    let (toks, interner) = run_chunks(&[b"abc"]).unwrap();
    assert_eq!(toks.len(), 2);
    match toks[0] {
        Token::Text(h) => assert_eq!(interner.get(h), "abc"),
        _ => panic!("expected the flushed text span"),
    }
    assert_eq!(toks[1], Token::Eof);
}

#[test]
fn end_of_stream_flushes_open_prefix() {
    let (toks, _) = run_chunks(&[b"<"]).unwrap();
    assert_eq!(toks, vec![Token::Sym(Symbol::Lt), Token::Eof]);
}

#[test]
fn empty_chunks_mean_no_data_yet() {
    let (toks, _) = run_chunks(&[b"", b"=", b"", b"="]).unwrap();
    assert_eq!(toks, vec![Token::Sym(Symbol::EqEq), Token::Eof]);
}

fn verdict_of(chunks: &[&[u8]]) -> Option<LexError> {
    run_chunks(chunks).err()
}

#[test]
fn decode_error_reaches_the_consumer_with_its_stage() {
    assert_eq!(
        verdict_of(&[&[0xc0, 0x80]]),
        Some(LexError::Decode(Utf8Error::InvalidScalarValue))
    );
    assert_eq!(verdict_of(&[&[0x80]]), Some(LexError::Decode(Utf8Error::InvalidLeading)));
    assert_eq!(verdict_of(&[&[0xc3, 0x28]]), Some(LexError::Decode(Utf8Error::InvalidCont)));
}

#[test]
fn truncated_stream_is_malformed() {
    // ends in the middle of a two-byte encoding
    assert_eq!(verdict_of(&[&[0x61, 0xc3]]), Some(LexError::Decode(Utf8Error::InvalidCont)));
}

#[test]
fn recognizer_error_reaches_the_consumer() {
    assert_eq!(verdict_of(&[&[0x01]]), Some(LexError::UnrecognizedSymbol));
}

#[test]
fn tokens_before_an_error_are_still_produced() {
    let mut interner = StringInterner::empty();
    let mut pipe = Pipeline::new();
    let mut out = Vec::new();
    let verdict = pipe.feed_chunk(&mut interner, b"ab;\x01", &mut out);
    assert_eq!(verdict, Some(LexError::UnrecognizedSymbol));
    assert_eq!(out.len(), 2);
    match out[0] {
        Token::Text(h) => assert_eq!(interner.get(h), "ab"),
        _ => panic!("expected the flushed text span"),
    }
    assert_eq!(out[1], Token::Sym(Symbol::Semi));
    // the failure is permanent and reported again
    assert_eq!(
        pipe.feed_chunk(&mut interner, b"cd", &mut out),
        Some(LexError::UnrecognizedSymbol)
    );
    assert_eq!(out.len(), 2);
}

#[test]
fn pipeline_shares_interner_handles_across_chunks() {
    let (toks, interner) = run_chunks(&[b"x y", b" x"]).unwrap();
    assert_eq!(toks.len(), 4);
    match (toks[0], toks[1], toks[2]) {
        (Token::Text(a), Token::Text(b), Token::Text(c)) => {
            assert_eq!(a, c);
            assert_ne!(a, b);
            assert_eq!(interner.get(a), "x");
            assert_eq!(interner.get(b), "y");
        }
        _ => panic!("expected three text-span tokens"),
    }
    assert_eq!(interner.len(), 2);
}

#[test]
fn whitespace_only_stream_yields_just_the_end_marker() {
    let (toks, _) = run_chunks(&[b"  \t\n "]).unwrap();
    assert_eq!(toks, vec![Token::Eof]);
}
