use lexer::utf8::CharResult;
use lexer::utf8::Utf8Decoder;
use lexer::utf8::Utf8Error;
use lexer::utf8::parse_utf8;
use lexer::utf8::str_to_char_slice;

fn decode_in_chunks(bytes: &[u8], chunk_len: usize) -> Result<Vec<char>, Utf8Error> {
    let mut dec = Utf8Decoder::new();
    let mut out = Vec::new();
    let mut i: usize = 0;
    while i < bytes.len() {
        let end = (i + chunk_len).min(bytes.len());
        if let Some(e) = dec.feed(&bytes[i..end], &mut out) {
            return Err(e);
        }
        i = end;
    }
    Ok(out)
}

fn parse_utf8_agrees_with_std(bytes: [u8; 4]) {
    let mut pos: usize = 0;
    match parse_utf8(&bytes, &mut pos) {
        None => {
            assert!(std::str::from_utf8(&bytes).is_err());
            assert_eq!(pos, 0);
        }
        Some(c) => {
            let prefix = std::str::from_utf8(&bytes[0..pos]).unwrap();
            assert_eq!(prefix.chars().next(), Some(c));
        }
    }
}

// The decoder agrees with std's UTF-8 validation on every window whose first
// two bytes are exhaustive and whose trailing bytes sample each byte class.
#[test]
fn utf8_test_parse_utf8() {
    let tail = [0x00u8, 0x41, 0x7f, 0x80, 0x9f, 0xbf, 0xc0, 0xff];
    for b0 in 0..=255u8 {
        for b1 in 0..=255u8 {
            for &b2 in tail.iter() {
                for &b3 in tail.iter() {
                    parse_utf8_agrees_with_std([b0, b1, b2, b3]);
                }
            }
        }
    }
}

// The same agreement, sampled across the whole 32-bit space of windows.
#[test]
fn mod_test_parse_utf8() {
    let mut i: u64 = 0;
    while i <= u32::MAX as u64 {
        let bytes = (i as u32).to_le_bytes();
        parse_utf8_agrees_with_std(bytes);
        i += 65521;
    }
}

#[test]
fn parse_utf8_widths() {
    let text = "A\u{e9}\u{20ac}\u{10348}";
    let bytes = text.as_bytes();
    let mut pos: usize = 0;
    assert_eq!(parse_utf8(bytes, &mut pos), Some('A'));
    assert_eq!(pos, 1);
    assert_eq!(parse_utf8(bytes, &mut pos), Some('\u{e9}'));
    assert_eq!(pos, 3);
    assert_eq!(parse_utf8(bytes, &mut pos), Some('\u{20ac}'));
    assert_eq!(pos, 6);
    assert_eq!(parse_utf8(bytes, &mut pos), Some('\u{10348}'));
    assert_eq!(pos, 10);
    assert_eq!(parse_utf8(bytes, &mut pos), None);
    assert_eq!(pos, 10);
}

#[test]
fn parse_utf8_incomplete_is_none() {
    // first two bytes of a three-byte encoding
    let bytes = [0xe2u8, 0x82];
    let mut pos: usize = 0;
    assert_eq!(parse_utf8(&bytes, &mut pos), None);
    assert_eq!(pos, 0);
}

#[test]
fn str_to_char_slice_matches_chars() {
    let text = "na\u{ef}ve \u{65e5}\u{672c} == x";
    let expected: Vec<char> = text.chars().collect();
    assert_eq!(str_to_char_slice(text.as_bytes()), Ok(expected));
}

#[test]
fn str_to_char_slice_drops_incomplete_tail() {
    // "A" followed by the first byte of a two-byte encoding
    let bytes = [0x41u8, 0xc3];
    assert_eq!(str_to_char_slice(&bytes), Ok(vec!['A']));
}

#[test]
fn overlong_nul_is_rejected() {
    assert_eq!(str_to_char_slice(&[0xc0, 0x80]), Err(Utf8Error::InvalidScalarValue));
    let mut dec = Utf8Decoder::new();
    let mut out = Vec::new();
    assert_eq!(dec.feed(&[0xc0, 0x80], &mut out), Some(Utf8Error::InvalidScalarValue));
    assert_eq!(out, Vec::<char>::new());
}

#[test]
fn overlong_nul_is_rejected_across_chunks() {
    let mut dec = Utf8Decoder::new();
    let mut out = Vec::new();
    assert_eq!(dec.feed(&[0xc0], &mut out), None);
    assert_eq!(dec.feed(&[0x80], &mut out), Some(Utf8Error::InvalidScalarValue));
    assert!(out.is_empty());
}

#[test]
fn surrogate_is_rejected() {
    assert_eq!(str_to_char_slice(&[0xed, 0xa0, 0x80]), Err(Utf8Error::InvalidScalarValue));
}

#[test]
fn beyond_last_scalar_is_rejected() {
    assert_eq!(str_to_char_slice(&[0xf4, 0x90, 0x80, 0x80]), Err(Utf8Error::InvalidScalarValue));
}

#[test]
fn invalid_leading_byte_is_rejected() {
    assert_eq!(str_to_char_slice(&[0x80]), Err(Utf8Error::InvalidLeading));
    assert_eq!(str_to_char_slice(&[0xf8, 0x80, 0x80, 0x80]), Err(Utf8Error::InvalidLeading));
}

#[test]
fn invalid_continuation_byte_is_rejected() {
    assert_eq!(str_to_char_slice(&[0xc3, 0x41]), Err(Utf8Error::InvalidCont));
}

#[test]
fn decoder_failure_is_permanent() {
    let mut dec = Utf8Decoder::new();
    let mut out = Vec::new();
    assert_eq!(dec.feed(&[0x80], &mut out), Some(Utf8Error::InvalidLeading));
    // well-formed input afterwards changes nothing
    assert_eq!(dec.feed(b"abc", &mut out), Some(Utf8Error::InvalidLeading));
    assert!(out.is_empty());
}

#[test]
fn decoder_chunk_invariance_exhaustive_splits() {
    let text = "a\u{e9}\u{20ac}\u{10348}z";
    let bytes = text.as_bytes();
    let expected: Vec<char> = text.chars().collect();
    // one chunk
    assert_eq!(decode_in_chunks(bytes, bytes.len()), Ok(expected.clone()));
    // every split into two chunks
    for cut in 0..=bytes.len() {
        let mut dec = Utf8Decoder::new();
        let mut out = Vec::new();
        assert_eq!(dec.feed(&bytes[..cut], &mut out), None);
        assert_eq!(dec.feed(&bytes[cut..], &mut out), None);
        assert_eq!(out, expected);
    }
    // one byte at a time
    assert_eq!(decode_in_chunks(bytes, 1), Ok(expected));
}

#[test]
fn decoder_push_byte_signals() {
    let mut dec = Utf8Decoder::new();
    assert_eq!(dec.push_byte(0x41), Ok(CharResult::Scalar('A')));
    assert!(!dec.mid_sequence());
    assert_eq!(dec.push_byte(0xc3), Ok(CharResult::NeedMoreU8));
    assert!(dec.mid_sequence());
    assert_eq!(dec.push_byte(0xa9), Ok(CharResult::Scalar('\u{e9}')));
    assert!(!dec.mid_sequence());
    assert_eq!(dec.push_byte(0x41), Ok(CharResult::Scalar('A')));
}

#[test]
fn empty_chunk_changes_nothing() {
    let mut dec = Utf8Decoder::new();
    let mut out = Vec::new();
    assert_eq!(dec.feed(&[], &mut out), None);
    assert!(out.is_empty());
    assert_eq!(dec.feed(&[0xc3], &mut out), None);
    assert_eq!(dec.feed(&[], &mut out), None);
    assert_eq!(dec.feed(&[0xa9], &mut out), None);
    assert_eq!(out, vec!['\u{e9}']);
}
