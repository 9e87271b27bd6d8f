use lexer::interner::StringInterner;
use lexer::lexer::Lexer;
use lexer::lexer::Ptr;
use lexer::recognizer::Recognizer;
use lexer::recognizer::token_generator_from_char;
use lexer::token::LexError;
use lexer::token::Symbol;
use lexer::token::Token;

fn lex_all(input: &str) -> Result<(Vec<Token>, Lexer), LexError> {
    let mut lx = Lexer::new();
    let mut toks = Vec::new();
    let mut rest = input;
    loop {
        let (t, used) = lx.lex(rest)?;
        toks.push(t);
        rest = &rest[used..];
        if t == Token::Eof {
            return Ok((toks, lx));
        }
    }
}

#[test]
fn maximal_munch_le() {
    let mut lx = Lexer::new();
    assert_eq!(lx.lex("<="), Ok((Token::Sym(Symbol::Le), 2)));
}

#[test]
fn maximal_munch_lt_at_end_of_stream() {
    let mut lx = Lexer::new();
    assert_eq!(lx.lex("<"), Ok((Token::Sym(Symbol::Lt), 1)));
}

#[test]
fn maximal_munch_all_pairs() {
    let cases = [
        ("==", Symbol::EqEq),
        ("<=", Symbol::Le),
        (">=", Symbol::Ge),
        ("&&", Symbol::AndAnd),
        ("||", Symbol::OrOr),
        ("!=", Symbol::NotEq),
    ];
    for (text, sym) in cases.iter() {
        let mut lx = Lexer::new();
        assert_eq!(lx.lex(text), Ok((Token::Sym(*sym), 2)));
    }
}

#[test]
fn non_combining_lookahead_yields_short_symbol() {
    let mut lx = Lexer::new();
    assert_eq!(lx.lex("=<"), Ok((Token::Sym(Symbol::Eq), 1)));
    assert_eq!(lx.lex("<"), Ok((Token::Sym(Symbol::Lt), 1)));
    assert_eq!(lx.lex("&|"), Ok((Token::Sym(Symbol::And), 1)));
    assert_eq!(lx.lex("!!"), Ok((Token::Sym(Symbol::Not), 1)));
}

#[test]
fn single_symbols() {
    let cases = [
        ("~", Symbol::Tilde),
        ("@", Symbol::At),
        (".", Symbol::Dot),
        (",", Symbol::Comma),
        (";", Symbol::Semi),
        (":", Symbol::Colon),
        ("#", Symbol::Pound),
        ("$", Symbol::Dollar),
        ("?", Symbol::Question),
        ("'", Symbol::Quote),
        ("{", Symbol::OpenBrace),
        ("}", Symbol::ClosingBrace),
        ("(", Symbol::OpenParen),
        (")", Symbol::ClosingParen),
        ("[", Symbol::OpenBracket),
        ("]", Symbol::ClosingBracket),
        ("+", Symbol::Plus),
        ("-", Symbol::Minus),
        ("*", Symbol::Star),
        ("/", Symbol::Slash),
        ("%", Symbol::Percent),
        ("^", Symbol::Caret),
    ];
    for (text, sym) in cases.iter() {
        let mut lx = Lexer::new();
        assert_eq!(lx.lex(text), Ok((Token::Sym(*sym), 1)));
    }
}

#[test]
fn identifier_boundary() {
    let (toks, lx) = lex_all("ab=c").unwrap();
    assert_eq!(toks.len(), 4);
    match (toks[0], toks[2]) {
        (Token::Text(h_ab), Token::Text(h_c)) => {
            assert_eq!(lx.string_interner.get(h_ab), "ab");
            assert_eq!(lx.string_interner.get(h_c), "c");
        }
        _ => panic!("expected text-span tokens around the operator"),
    }
    assert_eq!(toks[1], Token::Sym(Symbol::Eq));
    assert_eq!(toks[3], Token::Eof);
}

#[test]
fn identifier_boundary_consumes_exactly_the_span() {
    let mut lx = Lexer::new();
    let (t, used) = lx.lex("ab=c").unwrap();
    assert!(matches!(t, Token::Text(_)));
    assert_eq!(used, 2);
}

#[test]
fn lex_skips_whitespace() {
    let mut lx = Lexer::new();
    let (t, used) = lx.lex(" \t\n ab").unwrap();
    match t {
        Token::Text(h) => assert_eq!(lx.string_interner.get(h), "ab"),
        _ => panic!("expected a text-span token"),
    }
    assert_eq!(used, 6);
}

#[test]
fn lex_empty_and_blank_input_yield_eof() {
    let mut lx = Lexer::new();
    assert_eq!(lx.lex(""), Ok((Token::Eof, 0)));
    assert_eq!(lx.lex("   "), Ok((Token::Eof, 3)));
}

#[test]
fn lex_multibyte_identifier() {
    let mut lx = Lexer::new();
    let (t, used) = lx.lex("na\u{ef}ve+").unwrap();
    match t {
        Token::Text(h) => assert_eq!(lx.string_interner.get(h), "na\u{ef}ve"),
        _ => panic!("expected a text-span token"),
    }
    assert_eq!(used, "na\u{ef}ve".len());
    assert_eq!(lx.lex(&"na\u{ef}ve+"[used..]), Ok((Token::Sym(Symbol::Plus), 1)));
}

#[test]
fn lex_unrecognized_symbol() {
    let mut lx = Lexer::new();
    assert_eq!(lx.lex("\u{1}"), Err(LexError::UnrecognizedSymbol));
}

#[test]
fn lex_interns_repeated_spans_once() {
    let (toks, lx) = lex_all("x y x").unwrap();
    match (toks[0], toks[1], toks[2]) {
        (Token::Text(a), Token::Text(b), Token::Text(c)) => {
            assert_eq!(a, c);
            assert_ne!(a, b);
            assert_eq!(lx.string_interner.get(a), "x");
            assert_eq!(lx.string_interner.get(b), "y");
        }
        _ => panic!("expected three text-span tokens"),
    }
    assert_eq!(lx.string_interner.len(), 2);
}

#[test]
fn token_generator_from_char_whole_sequence() {
    let mut interner = StringInterner::empty();
    let chars: Vec<char> = "ab <= cd".chars().collect();
    let toks = token_generator_from_char(&mut interner, &chars).unwrap();
    assert_eq!(toks.len(), 4);
    match (toks[0], toks[2]) {
        (Token::Text(a), Token::Text(b)) => {
            assert_eq!(interner.get(a), "ab");
            assert_eq!(interner.get(b), "cd");
        }
        _ => panic!("expected text-span tokens"),
    }
    assert_eq!(toks[1], Token::Sym(Symbol::Le));
    assert_eq!(toks[3], Token::Eof);
}

#[test]
fn token_generator_reports_unrecognized() {
    let mut interner = StringInterner::empty();
    let chars: Vec<char> = vec!['a', '\u{2}'];
    assert_eq!(
        token_generator_from_char(&mut interner, &chars),
        Err(LexError::UnrecognizedSymbol)
    );
}

#[test]
fn recognizer_flushes_span_then_starts_symbol() {
    let mut interner = StringInterner::empty();
    let mut rec = Recognizer::new();
    let mut out = Vec::new();
    assert_eq!(rec.push_char(&mut interner, &mut out, 'a'), None);
    assert_eq!(rec.push_char(&mut interner, &mut out, 'b'), None);
    assert!(out.is_empty());
    // the boundary character flushes the span and opens the prefix
    assert_eq!(rec.push_char(&mut interner, &mut out, '='), None);
    assert_eq!(out.len(), 1);
    match out[0] {
        Token::Text(h) => assert_eq!(interner.get(h), "ab"),
        _ => panic!("expected the flushed text span"),
    }
    assert_eq!(rec.finish(&mut interner, &mut out), None);
    assert_eq!(&out[1..], &[Token::Sym(Symbol::Eq), Token::Eof]);
}

#[test]
fn ptr_walks_scalar_values() {
    let text = "a\u{e9}\u{10348}";
    let mut ptr = Ptr::new(text);
    assert_eq!(ptr.ret(), 0);
    assert_eq!(ptr.capacity_left(), text.len());
    assert_eq!(ptr.peek(), Some('a'));
    assert_eq!(ptr.bump(), Some('a'));
    assert_eq!(ptr.ret(), 1);
    assert_eq!(ptr.bump(), Some('\u{e9}'));
    assert_eq!(ptr.ret(), 3);
    assert_eq!(ptr.peek(), Some('\u{10348}'));
    assert_eq!(ptr.bump(), Some('\u{10348}'));
    assert_eq!(ptr.ret(), 7);
    assert_eq!(ptr.capacity_left(), 0);
    assert_eq!(ptr.bump(), None);
    assert_eq!(ptr.ret(), 7);
}
