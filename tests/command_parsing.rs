use servo_sequencer::command::{
    parse, parse_text, parse_u32, split_bytes, ParseError, Step, Timeline, MAX_PAYLOAD_LEN,
};

fn steps(t: Result<Timeline, ParseError>) -> Vec<Step> {
    t.unwrap().steps
}

#[test]
fn single_value_is_one_step_without_hold() {
    assert_eq!(steps(parse(b"42")), vec![Step { position: 42, hold_ms: None }]);
}

#[test]
fn three_values_are_two_steps() {
    assert_eq!(
        steps(parse(b"10,250,170")),
        vec![
            Step { position: 10, hold_ms: None },
            Step { position: 170, hold_ms: Some(250) },
        ]
    );
}

#[test]
fn five_values_are_three_steps() {
    assert_eq!(
        steps(parse(b"90,500,0,500,180")),
        vec![
            Step { position: 90, hold_ms: None },
            Step { position: 0, hold_ms: Some(500) },
            Step { position: 180, hold_ms: Some(500) },
        ]
    );
}

#[test]
fn empty_payload_is_malformed() {
    assert_eq!(parse(b""), Err(ParseError::MalformedTimeline));
}

#[test]
fn trailing_separator_is_an_invalid_number() {
    assert_eq!(
        parse(b"90,"),
        Err(ParseError::InvalidNumber { token: vec![], position: 1 })
    );
}

#[test]
fn even_count_is_malformed() {
    assert_eq!(parse(b"90,500"), Err(ParseError::MalformedTimeline));
}

#[test]
fn letters_are_an_invalid_number() {
    assert_eq!(
        parse(b"abc"),
        Err(ParseError::InvalidNumber { token: b"abc".to_vec(), position: 0 })
    );
}

#[test]
fn first_bad_token_is_reported() {
    assert_eq!(
        parse(b"1,x,2,y,3"),
        Err(ParseError::InvalidNumber { token: b"x".to_vec(), position: 1 })
    );
}

#[test]
fn bad_token_wins_over_even_count() {
    assert_eq!(
        parse(b"1,2,-3,4"),
        Err(ParseError::InvalidNumber { token: b"-3".to_vec(), position: 2 })
    );
}

#[test]
fn whitespace_is_not_accepted() {
    assert_eq!(
        parse(b"90, 500,0"),
        Err(ParseError::InvalidNumber { token: b" 500".to_vec(), position: 1 })
    );
}

#[test]
fn number_too_large_is_invalid() {
    assert_eq!(
        parse(b"4294967296"),
        Err(ParseError::InvalidNumber { token: b"4294967296".to_vec(), position: 0 })
    );
    assert_eq!(
        steps(parse(b"4294967295")),
        vec![Step { position: u32::MAX, hold_ms: None }]
    );
}

#[test]
fn invalid_utf8_is_an_encoding_error() {
    assert_eq!(parse(&[0x39, 0x30, 0xff]), Err(ParseError::Encoding));
    assert_eq!(parse(&[0xc3]), Err(ParseError::Encoding));
}

#[test]
fn valid_non_ascii_text_is_an_invalid_number() {
    let text = "9\u{e9}".as_bytes();
    assert_eq!(
        parse(text),
        Err(ParseError::InvalidNumber { token: text.to_vec(), position: 0 })
    );
}

#[test]
fn oversized_payload_is_refused() {
    let mut fits = b"1".to_vec();
    while fits.len() + 4 <= MAX_PAYLOAD_LEN {
        fits.extend_from_slice(b",0,0");
    }
    fits.extend_from_slice(b"000");
    assert_eq!(fits.len(), MAX_PAYLOAD_LEN);
    assert_eq!(steps(parse(&fits)).len(), 256);
    let mut big = fits.clone();
    big.push(b'0');
    assert_eq!(parse(&big), Err(ParseError::PayloadTooLarge));
}

#[test]
fn parsing_is_deterministic() {
    let a = parse(b"5,10,15");
    let b = parse(b"5,10,15");
    assert_eq!(a, b);
    assert_eq!(parse(b"5,x"), parse(b"5,x"));
}

#[test]
fn text_parsing_skips_the_encoding_check() {
    assert_eq!(
        parse_text(&[0xff]),
        Err(ParseError::InvalidNumber { token: vec![0xff], position: 0 })
    );
}

#[test]
fn numbers_parse_exactly() {
    assert_eq!(parse_u32(b"0"), Some(0));
    assert_eq!(parse_u32(b"007"), Some(7));
    assert_eq!(parse_u32(b"123456"), Some(123456));
    assert_eq!(parse_u32(b""), None);
    assert_eq!(parse_u32(b"+5"), None);
    assert_eq!(parse_u32(b"99999999999999999999"), None);
}

#[test]
fn split_keeps_empty_pieces() {
    assert_eq!(split_bytes(b"", b','), vec![Vec::<u8>::new()]);
    assert_eq!(
        split_bytes(b",a,,b", b','),
        vec![vec![], b"a".to_vec(), vec![], b"b".to_vec()]
    );
}
