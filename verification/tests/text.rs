use extreader::{convert, outcome, token_text, ExtractError};

fn is_white_space(c: char) -> bool {
    matches!(
        c,
        '\u{0009}'..='\u{000D}'
            | '\u{0020}'
            | '\u{0085}'
            | '\u{00A0}'
            | '\u{1680}'
            | '\u{2000}'..='\u{200A}'
            | '\u{2028}'
            | '\u{2029}'
            | '\u{202F}'
            | '\u{205F}'
            | '\u{3000}'
    )
}

#[test]
fn token_text_decodes_plain_text() {
    assert_eq!(token_text(b"hello".to_vec()), Ok(String::from("hello")));
}

#[test]
fn token_text_of_no_bytes_is_empty() {
    assert_eq!(token_text(Vec::new()), Ok(String::new()));
}

#[test]
fn token_text_decodes_characters_of_every_width() {
    let bytes = vec![
        b'a', 0xC3, 0xA9, 0xE2, 0x82, 0xAC, 0xF0, 0x9F, 0x98, 0x80,
    ];
    assert_eq!(token_text(bytes), Ok(String::from("a\u{E9}\u{20AC}\u{1F600}")));
}

#[test]
fn token_text_trims_whitespace_at_both_ends_only() {
    assert_eq!(token_text(b"\r42\r".to_vec()), Ok(String::from("42")));
    assert_eq!(
        token_text(b"\x0B\x0C a \r b \r\n".to_vec()),
        Ok(String::from("a \r b"))
    );
    assert_eq!(
        token_text("\u{A0}\u{3000}7\u{2003}\u{85}".as_bytes().to_vec()),
        Ok(String::from("7"))
    );
    assert_eq!(token_text(b" \t\n\r".to_vec()), Ok(String::new()));
}

#[test]
fn token_text_keeps_what_is_not_whitespace() {
    assert_eq!(
        token_text("\u{200B}7\u{FEFF}".as_bytes().to_vec()),
        Ok(String::from("\u{200B}7\u{FEFF}"))
    );
    assert_eq!(
        token_text("\u{180E}x\u{1C}".as_bytes().to_vec()),
        Ok(String::from("\u{180E}x\u{1C}"))
    );
}

fn check_trimming_of(codes: std::ops::RangeInclusive<u32>) {
    for code in codes {
        if let Some(c) = char::from_u32(code) {
            let around = token_text(format!("{}x{}", c, c).into_bytes()).unwrap();
            if is_white_space(c) {
                assert_eq!(around, "x", "U+{:04X}", code);
            } else {
                assert_eq!(around, format!("{}x{}", c, c), "U+{:04X}", code);
            }
        }
    }
}

#[test]
fn token_text_trims_exactly_the_white_space_of_the_basic_plane() {
    check_trimming_of(0x0000..=0xFFFF);
}

#[test]
fn token_text_trims_nothing_of_the_lower_supplementary_planes() {
    check_trimming_of(0x1_0000..=0x8_FFFF);
}

#[test]
fn token_text_trims_nothing_of_the_upper_supplementary_planes() {
    check_trimming_of(0x9_0000..=0x10_FFFF);
}

#[test]
fn token_text_of_white_space_alone_is_empty() {
    for code in 0x0000..=0xFFFFu32 {
        if let Some(c) = char::from_u32(code) {
            let alone = token_text(c.to_string().into_bytes()).unwrap();
            if is_white_space(c) {
                assert_eq!(alone, "", "U+{:04X}", code);
            } else {
                assert_eq!(alone, c.to_string(), "U+{:04X}", code);
            }
        }
    }
}

#[test]
fn token_text_rejects_bytes_that_are_not_utf8() {
    let invalid: Vec<Vec<u8>> = vec![
        vec![0xFF],
        vec![0x80],
        vec![b'a', 0xC3],
        vec![0xC3, b'a'],
        vec![0xC0, 0x80],
        vec![0xC1, 0xBF],
        vec![0xE0, 0x80, 0x80],
        vec![0xE0, 0x9F, 0xBF],
        vec![0xED, 0xA0, 0x80],
        vec![0xED, 0xBF, 0xBF],
        vec![0xE2, 0x82],
        vec![0xF0, 0x80, 0x80, 0x80],
        vec![0xF0, 0x8F, 0xBF, 0xBF],
        vec![0xF4, 0x90, 0x80, 0x80],
        vec![0xF5, 0x80, 0x80, 0x80],
        vec![0xF7, 0xBF, 0xBF, 0xBF],
        vec![0xF8, 0x88, 0x80, 0x80, 0x80],
        vec![0xF0, 0x9F, 0x98],
    ];
    for bytes in invalid {
        assert_eq!(token_text(bytes.clone()), Err(ExtractError::Encoding), "{:?}", bytes);
    }
}

#[test]
fn token_text_accepts_the_bounds_of_each_width() {
    let valid: Vec<(Vec<u8>, char)> = vec![
        (vec![0x00], '\u{0}'),
        (vec![0x7F], '\u{7F}'),
        (vec![0xC2, 0x80], '\u{80}'),
        (vec![0xDF, 0xBF], '\u{7FF}'),
        (vec![0xE0, 0xA0, 0x80], '\u{800}'),
        (vec![0xED, 0x9F, 0xBF], '\u{D7FF}'),
        (vec![0xEE, 0x80, 0x80], '\u{E000}'),
        (vec![0xEF, 0xBF, 0xBF], '\u{FFFF}'),
        (vec![0xF0, 0x90, 0x80, 0x80], '\u{10000}'),
        (vec![0xF4, 0x8F, 0xBF, 0xBF], '\u{10FFFF}'),
    ];
    for (bytes, c) in valid {
        assert_eq!(token_text(bytes), Ok(c.to_string()));
    }
}

#[test]
fn outcome_keeps_a_value_and_names_a_refusal() {
    assert_eq!(outcome(Some(7)), Ok(7));
    assert_eq!(outcome::<i32>(None), Err(ExtractError::Parse));
}

#[test]
fn convert_gives_the_value_the_text_stands_for() {
    assert_eq!(convert::<i32>(b"42".to_vec()), Ok(42));
    assert_eq!(convert::<f64>(b"3.1".to_vec()), Ok(3.1));
    assert_eq!(convert::<String>(b"hello".to_vec()), Ok(String::from("hello")));
    assert_eq!(convert::<i32>(b"-2147483648".to_vec()), Ok(i32::MIN));
    assert_eq!(convert::<u8>(b"+255".to_vec()), Ok(255));
    assert_eq!(convert::<bool>(b"false".to_vec()), Ok(false));
    assert_eq!(convert::<char>("\u{E9}".as_bytes().to_vec()), Ok('\u{E9}'));
}

#[test]
fn convert_trims_before_it_converts() {
    assert_eq!(convert::<i32>(b"42\r".to_vec()), Ok(42));
    assert_eq!(convert::<String>(b"\rword\r".to_vec()), Ok(String::from("word")));
}

#[test]
fn convert_reports_text_that_the_type_refuses() {
    assert_eq!(convert::<i32>(Vec::new()), Err(ExtractError::Parse));
    assert_eq!(convert::<i32>(b"4 2".to_vec()), Err(ExtractError::Parse));
    assert_eq!(convert::<i32>(b"3.1".to_vec()), Err(ExtractError::Parse));
    assert_eq!(convert::<f64>(b"three".to_vec()), Err(ExtractError::Parse));
    assert_eq!(convert::<u8>(b"-1".to_vec()), Err(ExtractError::Parse));
    assert_eq!(convert::<bool>(b"yes".to_vec()), Err(ExtractError::Parse));
}

#[test]
fn convert_reports_bytes_that_are_not_utf8() {
    assert_eq!(convert::<String>(vec![0xFF, 0xFE]), Err(ExtractError::Encoding));
    assert_eq!(convert::<i32>(vec![b'1', 0x80]), Err(ExtractError::Encoding));
}

#[test]
fn convert_accepts_empty_text_into_a_string() {
    assert_eq!(convert::<String>(Vec::new()), Ok(String::new()));
}
