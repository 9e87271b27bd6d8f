use lexer::interner::NumInterner;
use lexer::interner::StringInterner;
use lexer::token::LitNum;

#[test]
fn interner_round_trip_concrete() {
    let words = ["foo", "bar", "foo", "", "baz", "bar", "foo"];
    let mut interner = StringInterner::empty();
    let mut keys = Vec::new();
    for w in words.iter() {
        keys.push(interner.insert(w));
    }
    // every handle resolves to the content it was issued for
    for (i, w) in words.iter().enumerate() {
        assert_eq!(interner.get(keys[i]), *w);
    }
    // re-inserting returns the same handle and changes nothing
    for (i, w) in words.iter().enumerate() {
        let again = interner.insert(w);
        assert_eq!(again, keys[i]);
        assert_eq!(interner.get(keys[i]), *w);
    }
    // duplicates share one handle; distinct contents have distinct handles
    assert_eq!(keys[0], keys[2]);
    assert_eq!(keys[1], keys[5]);
    assert_eq!(keys[0], keys[6]);
    assert_ne!(keys[0], keys[1]);
    assert_ne!(keys[3], keys[4]);
    assert_eq!(interner.len(), 4);
}

#[test]
fn interner_round_trip_after_many_later_inserts() {
    let mut interner = StringInterner::empty();
    let h = interner.insert("pivot");
    for i in 0..100u32 {
        interner.insert(&format!("w{}", i));
    }
    assert_eq!(interner.get(h), "pivot");
    assert_eq!(interner.insert("pivot"), h);
    assert_eq!(interner.len(), 101);
}

#[test]
fn interner_handles_are_dense_and_ordered() {
    let mut interner = StringInterner::empty();
    assert_eq!(interner.len(), 0);
    assert_eq!(interner.insert("a"), 0);
    assert_eq!(interner.insert("b"), 1);
    assert_eq!(interner.insert("a"), 0);
    assert_eq!(interner.insert("c"), 2);
    assert_eq!(interner.len(), 3);
    assert_eq!(interner.get(0), "a");
    assert_eq!(interner.get(1), "b");
    assert_eq!(interner.get(2), "c");
}

#[test]
fn interner_multibyte_content() {
    let mut interner = StringInterner::empty();
    let h1 = interner.insert("na\u{ef}ve");
    let h2 = interner.insert("na\u{ef}ve\u{10348}");
    assert_ne!(h1, h2);
    assert_eq!(interner.get(h1), "na\u{ef}ve");
    assert_eq!(interner.get(h2), "na\u{ef}ve\u{10348}");
    assert_eq!(interner.insert("na\u{ef}ve"), h1);
}

#[test]
fn interner_insert_chars_matches_insert() {
    let mut interner = StringInterner::empty();
    let h1 = interner.insert("span");
    let chars: Vec<char> = vec!['s', 'p', 'a', 'n'];
    let h2 = interner.insert_chars(&chars);
    assert_eq!(h1, h2);
    let fresh: Vec<char> = vec!['n', '\u{e9}', 'w'];
    let h3 = interner.insert_chars(&fresh);
    assert_eq!(interner.get(h3), "n\u{e9}w");
}

#[test]
fn num_interner_stores_in_order() {
    let mut nums = NumInterner::empty();
    assert_eq!(nums.len(), 0);
    let a = LitNum { mantissa: 314159, exponent: -5 };
    let b = LitNum { mantissa: 42, exponent: 0 };
    let ka = nums.insert(&a);
    let kb = nums.insert(&b);
    assert_eq!(ka, 0);
    assert_eq!(kb, 1);
    // no deduplication: equal values still take fresh handles
    let ka2 = nums.insert(&a);
    assert_eq!(ka2, 2);
    assert_eq!(nums.get(ka), a);
    assert_eq!(nums.get(kb), b);
    assert_eq!(nums.get(ka2), a);
    assert_eq!(nums.len(), 3);
}
