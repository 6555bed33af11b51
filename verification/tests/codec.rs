use base62num::{decode, encode, Base62Error};

#[test]
fn encode_pass() {
    assert_eq!(encode(7), "H");
    assert_eq!(encode(123), "B9");
}

#[test]
fn decode_pass() {
    assert_eq!(decode("H"), Ok(7));
    assert_eq!(decode("B9"), Ok(123));
    assert_eq!(decode("Base*62"), Err(Base62Error::NonAlphanumeric));
    assert_eq!(
        decode("AStringTooLongCausesTheOverflowError"),
        Err(Base62Error::Overflow)
    );
}

#[test]
fn zero_is_the_empty_text() {
    assert_eq!(encode(0), "");
    assert_eq!(decode(""), Ok(0));
}

#[test]
fn encode_exact_values() {
    assert_eq!(encode(1), "B");
    assert_eq!(encode(61), "9");
    assert_eq!(encode(62), "BA");
    assert_eq!(encode(3843), "99");
    assert_eq!(encode(3844), "BAA");
    assert_eq!(encode(1_000_000), "EMJC");
    assert_eq!(encode(4_294_967_295), "EqpPMD");
}

#[test]
fn decode_exact_values() {
    assert_eq!(decode("A"), Ok(0));
    assert_eq!(decode("BA"), Ok(62));
    assert_eq!(decode("99"), Ok(3843));
    assert_eq!(decode("Base"), Ok(341_030));
    assert_eq!(decode("Rust"), Ok(4_231_173));
    assert_eq!(decode("EqpPMD"), Ok(4_294_967_295));
}

#[test]
fn decode_after_encode_round_trips() {
    let samples: [usize; 12] = [
        0,
        1,
        7,
        61,
        62,
        63,
        123,
        3843,
        3844,
        1_000_000,
        usize::MAX - 1,
        usize::MAX,
    ];
    for n in samples {
        assert_eq!(decode(&encode(n)), Ok(n));
    }
    for n in 0..5000usize {
        assert_eq!(decode(&encode(n)), Ok(n));
    }
}

#[test]
fn encode_after_decode_gives_canonical_text() {
    for s in ["H", "B9", "Base", "Rust", "z0", "9999", "BAAAA"] {
        assert_eq!(encode(decode(s).unwrap()), s);
    }
    assert_eq!(encode(decode("AAH").unwrap()), "H");
    assert_eq!(encode(decode("AB9").unwrap()), "B9");
    assert_eq!(encode(decode("AAAA").unwrap()), "");
    assert_eq!(encode(decode("ABA").unwrap()), "BA");
}

#[test]
fn leading_zero_digits_do_not_change_the_value() {
    assert_eq!(decode("AAH"), Ok(7));
    assert_eq!(decode("AAAAAAAAAAAAAAAAAAAAAAAAAAAAAAAAAAAAAAAAAAAAAAAAAB9"), Ok(123));
}

#[test]
fn foreign_characters_are_refused() {
    for s in ["*", "-", "a b", "B9!", "_B9", "B-9", "caf\u{e9}", "\u{416}", "12.5", "a\n"] {
        assert_eq!(decode(s), Err(Base62Error::NonAlphanumeric));
    }
    for c in ['@', '[', '`', '{', '/', ':'] {
        assert_eq!(decode(&c.to_string()), Err(Base62Error::NonAlphanumeric));
    }
}

#[test]
fn values_beyond_the_word_overflow() {
    let top = encode(usize::MAX);
    assert_eq!(decode(&top), Ok(usize::MAX));

    let scaled = format!("{}A", top);
    assert_eq!(decode(&scaled), Err(Base62Error::Overflow));

    let all_letters = "z".repeat(37);
    assert_eq!(decode(&all_letters), Err(Base62Error::Overflow));
}

#[test]
fn overflow_by_the_last_addition() {
    if usize::BITS == 64 {
        assert_eq!(encode(usize::MAX), "V8qRkBGKRiP");
        assert_eq!(decode("V8qRkBGKRiP"), Ok(usize::MAX));
        assert_eq!(decode("V8qRkBGKRiO"), Ok(usize::MAX - 1));
        assert_eq!(decode("V8qRkBGKRiQ"), Err(Base62Error::Overflow));
        assert_eq!(decode("V8qRkBGKRi9"), Err(Base62Error::Overflow));
    }
}

#[test]
fn the_first_failure_from_the_left_wins() {
    assert_eq!(
        decode("AStringTooLongCausesTheOverflowError*"),
        Err(Base62Error::Overflow)
    );
    assert_eq!(
        decode("*AStringTooLongCausesTheOverflowError"),
        Err(Base62Error::NonAlphanumeric)
    );
    assert_eq!(
        decode("AString*TooLongCausesTheOverflowError"),
        Err(Base62Error::NonAlphanumeric)
    );
}

#[test]
fn length_grows_with_the_number() {
    let samples: [usize; 11] = [
        0,
        1,
        61,
        62,
        100,
        3843,
        3844,
        238_327,
        238_328,
        usize::MAX - 1,
        usize::MAX,
    ];
    for i in 0..samples.len() {
        for j in i + 1..samples.len() {
            assert!(encode(samples[i]).chars().count() <= encode(samples[j]).chars().count());
        }
    }
    let mut previous = 0;
    for n in 0..5000usize {
        let len = encode(n).chars().count();
        assert!(previous <= len);
        previous = len;
    }
    assert_eq!(encode(61).chars().count(), 1);
    assert_eq!(encode(62).chars().count(), 2);
    assert_eq!(encode(3843).chars().count(), 2);
    assert_eq!(encode(3844).chars().count(), 3);
}

#[test]
fn encoded_text_has_no_leading_zero_digit() {
    for n in 1..5000usize {
        assert!(!encode(n).starts_with('A'));
    }
    assert!(!encode(usize::MAX).starts_with('A'));
}
