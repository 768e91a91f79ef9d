use base64_codec::alphabet::index_of_symbol;
use base64_codec::{Base64, Base64Error, ALPHABET, PADDING};

#[test]
fn test_base64_encoder() {
    let base64 = Base64::new();
    assert_eq!(base64.encode(""), "");
    assert_eq!(base64.encode("f"), "Zg==".to_string());
    assert_eq!(base64.encode("fo"), "Zm8=".to_string());
    assert_eq!(base64.encode("foo"), "Zm9v".to_string());
    assert_eq!(base64.encode("foob"), "Zm9vYg==".to_string());
    assert_eq!(base64.encode("fooba"), "Zm9vYmE=".to_string());
    assert_eq!(base64.encode("foobar"), "Zm9vYmFy".to_string());
}

#[test]
fn test_base64_decoder() {
    let base64 = Base64::new();
    assert_eq!(base64.decode("").unwrap(), "");
    assert_eq!(base64.decode("Zg==").unwrap(), "f");
    assert_eq!(base64.decode("Zm8=").unwrap(), "fo");
    assert_eq!(base64.decode("Zm9v").unwrap(), "foo");
    assert_eq!(base64.decode("Zm9vYg").unwrap(), "foo");
    assert_eq!(base64.decode("Zm9vYg==").unwrap(), "foob");
    assert_eq!(base64.decode("Zm9vYmE=").unwrap(), "fooba");
    assert_eq!(base64.decode("Zm9vYmFy").unwrap(), "foobar");
}

fn samples() -> Vec<String> {
    let mut all: Vec<String> = vec![
        String::new(),
        "a".to_string(),
        "ab".to_string(),
        "abc".to_string(),
        "abcd".to_string(),
        "Hello".to_string(),
        "Many hands make light work.".to_string(),
        "\u{0}\u{1}\u{7f}".to_string(),
        "é".to_string(),
        "日本語のテキスト".to_string(),
        "🦀 crab".to_string(),
        "line one\nline two\r\n\ttabbed".to_string(),
    ];
    let mut grown = String::new();
    for code in 0u32..300 {
        if let Some(c) = char::from_u32(code * 37) {
            grown.push(c);
            all.push(grown.clone());
        }
    }
    all
}

#[test]
fn encode_matches_known_vectors() {
    let base64 = Base64::new();
    assert_eq!(base64.encode("Hello"), "SGVsbG8=");
    assert_eq!(base64.encode("Many hands make light work."), "TWFueSBoYW5kcyBtYWtlIGxpZ2h0IHdvcmsu");
    assert_eq!(base64.encode("é"), "w6k=");
    assert_eq!(base64.encode("\u{0}"), "AA==");
    assert_eq!(base64.encode("\u{0}\u{0}\u{0}"), "AAAA");
    assert_eq!(base64.encode("~~~"), "fn5+");
    assert_eq!(base64.encode("???"), "Pz8/");
}

#[test]
fn encode_packs_three_bytes_into_four_sextets() {
    // 'M' 'a' 'n' = 0x4d 0x61 0x6e = 0b010011_010110_000101_101110
    // sextets 19, 22, 5, 46 = 'T', 'W', 'F', 'u'
    let base64 = Base64::new();
    assert_eq!(base64.encode("Man"), "TWFu");
    // 'M' 'a' = 0b010011_010110_000100 -> 19, 22, 4 = 'T', 'W', 'E'
    assert_eq!(base64.encode("Ma"), "TWE=");
    // 'M' = 0b010011_010000 -> 19, 16 = 'T', 'Q'
    assert_eq!(base64.encode("M"), "TQ==");
}

#[test]
fn decode_known_vectors() {
    let base64 = Base64::new();
    assert_eq!(base64.decode("SGVsbG8=").unwrap(), "Hello");
    assert_eq!(base64.decode("TWFu").unwrap(), "Man");
    assert_eq!(base64.decode("w6k=").unwrap(), "é");
    assert_eq!(base64.decode("AAAA").unwrap(), "\u{0}\u{0}\u{0}");
    assert_eq!(base64.decode("fn5+").unwrap(), "~~~");
    assert_eq!(base64.decode("Pz8/").unwrap(), "???");
}

#[test]
fn round_trip_gives_the_input_back() {
    let base64 = Base64::new();
    for text in samples() {
        let encoded = base64.encode(&text);
        assert_eq!(base64.decode(&encoded).unwrap(), text);
    }
}

#[test]
fn encoded_length_is_four_times_the_number_of_groups() {
    let base64 = Base64::new();
    for text in samples() {
        let n = text.len();
        assert_eq!(base64.encode(&text).len(), 4 * ((n + 2) / 3));
    }
    assert_eq!(base64.encode("").len(), 0);
    assert_eq!(base64.encode("a").len(), 4);
    assert_eq!(base64.encode("abc").len(), 4);
    assert_eq!(base64.encode("abcd").len(), 8);
}

#[test]
fn encoding_ends_with_the_padding_the_length_calls_for() {
    let base64 = Base64::new();
    for text in samples() {
        let encoded = base64.encode(&text);
        let expected = (3 - text.len() % 3) % 3;
        let trailing = encoded.chars().rev().take_while(|c| *c == PADDING).count();
        assert_eq!(trailing, expected);
        assert_eq!(encoded.chars().filter(|c| *c == PADDING).count(), expected);
    }
    assert!(base64.encode("abc").ends_with('j'));
    assert!(base64.encode("ab").ends_with("I="));
    assert!(base64.encode("a").ends_with("Q=="));
}

#[test]
fn encoding_holds_only_symbols_and_padding() {
    let base64 = Base64::new();
    for text in samples() {
        for c in base64.encode(&text).chars() {
            assert!(c == PADDING || ALPHABET.contains(c));
        }
    }
}

#[test]
fn decode_rejects_characters_outside_the_alphabet() {
    let base64 = Base64::new();
    for text in ["Zm9v!", "!", " Zm9v", "Zm9v\n", "Zm-v", "Zm_v", "Zg==*", "Zmé9", "Zm9vY "] {
        assert!(matches!(base64.decode(text), Err(Base64Error::InvalidCharacter)));
    }
}

#[test]
fn decode_rejects_an_invalid_character_before_looking_at_the_bytes() {
    // "/w==" alone decodes to the byte 0xff, which is not UTF-8; the
    // character check comes first.
    let base64 = Base64::new();
    assert!(matches!(base64.decode("/w==#"), Err(Base64Error::InvalidCharacter)));
    assert!(matches!(base64.decode("#/w=="), Err(Base64Error::InvalidCharacter)));
}

#[test]
fn decode_reports_bytes_that_are_not_utf8() {
    let base64 = Base64::new();
    match base64.decode("/w==") {
        Err(Base64Error::Utf8Error(error)) => {
            assert_eq!(error.as_bytes(), &[0xffu8][..]);
            assert_eq!(error.utf8_error().valid_up_to(), 0);
        }
        other => panic!("expected a UTF-8 error, got {:?}", other),
    }
    match base64.decode("Zm9vwyg=") {
        Err(Base64Error::Utf8Error(error)) => {
            assert_eq!(error.into_bytes(), vec![b'f', b'o', b'o', 0xc3, 0x28]);
        }
        other => panic!("expected a UTF-8 error, got {:?}", other),
    }
}

#[test]
fn decode_ignores_an_incomplete_last_group() {
    let base64 = Base64::new();
    assert_eq!(base64.decode("Z").unwrap(), "");
    assert_eq!(base64.decode("Zg").unwrap(), "");
    assert_eq!(base64.decode("Zg=").unwrap(), "");
    assert_eq!(base64.decode("Zm9vY").unwrap(), "foo");
    assert_eq!(base64.decode("Zm9vYmE").unwrap(), "foo");
    assert_eq!(base64.decode("=").unwrap(), "");
}

#[test]
fn decode_counts_padding_group_by_group() {
    let base64 = Base64::new();
    assert_eq!(base64.decode("Zg==Zm9v").unwrap(), "ffoo");
    assert_eq!(base64.decode("Zg==Zg==").unwrap(), "ff");
    assert_eq!(base64.decode("Zm8=Zm8=Zm9v").unwrap(), "fofofoo");
}

#[test]
fn decode_yields_three_minus_padding_bytes_per_group() {
    let base64 = Base64::new();
    assert_eq!(base64.decode("====").unwrap(), "");
    assert_eq!(base64.decode("Z===").unwrap(), "");
    assert_eq!(base64.decode("========").unwrap(), "");
    // Padding adds no bits wherever it stands: "Z=g=" folds 'Z' (25) into
    // slot 0 and 'g' (32) into slot 2, and two padding symbols leave one
    // byte, 25 << 2 = 100 = 'd'.
    assert_eq!(base64.decode("Z=g=").unwrap(), "d");
    // "=m9v" keeps slot 0 empty: 38 << 12 | 61 << 6 | 47 = 0x02_6f6f, and
    // one padding symbol leaves the first two bytes.
    assert_eq!(base64.decode("=m9v").unwrap(), "\u{2}o");
}

#[test]
fn symbols_are_found_at_their_index() {
    for (index, symbol) in ALPHABET.chars().enumerate() {
        assert_eq!(index_of_symbol(symbol), Some(index as u8));
    }
    assert_eq!(ALPHABET.chars().count(), 64);
    assert_eq!(index_of_symbol('A'), Some(0));
    assert_eq!(index_of_symbol('Z'), Some(25));
    assert_eq!(index_of_symbol('a'), Some(26));
    assert_eq!(index_of_symbol('z'), Some(51));
    assert_eq!(index_of_symbol('0'), Some(52));
    assert_eq!(index_of_symbol('9'), Some(61));
    assert_eq!(index_of_symbol('+'), Some(62));
    assert_eq!(index_of_symbol('/'), Some(63));
}

#[test]
fn other_characters_have_no_index() {
    for c in [PADDING, '@', '[', '`', '{', '.', ':', '-', '_', ' ', '\n', '\u{0}', 'é', 'Ａ', '🦀'] {
        assert_eq!(index_of_symbol(c), None);
    }
}

#[test]
fn error_messages() {
    let base64 = Base64::new();
    let invalid = base64.decode("?").unwrap_err();
    assert_eq!(invalid.to_string(), "Invalid character in input");
    let not_text = base64.decode("/w==").unwrap_err();
    let expected = String::from_utf8(vec![0xff]).unwrap_err().to_string();
    assert_eq!(not_text.to_string(), expected);
}
