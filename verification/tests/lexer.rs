use haversine_core::lexer::{handle_digit_termination, is_number, parse_file, Token};

fn decode(text: &str) -> Option<u64> {
    text.parse::<f64>().ok().map(f64::to_bits)
}

fn render(bits: u64) -> String {
    f64::from_bits(bits).to_string()
}

fn number(value: f64) -> Token {
    Token::Number(value.to_bits())
}

fn string(text: &str) -> Token {
    Token::StringContent(text.to_string())
}

#[test]
fn tokenizes_empty_pairs_document() {
    let tokens = parse_file(b"{\"pairs\":[]}", decode);
    assert_eq!(
        tokens,
        vec![
            Token::OpenBrace,
            string("pairs"),
            Token::Colon,
            Token::OpenBracket,
            Token::CloseBracket,
            Token::CloseBrace,
        ]
    );
}

#[test]
fn tokenizes_negative_number_before_comma() {
    let tokens = parse_file(b"-3.99,", decode);
    assert_eq!(tokens, vec![number(-3.99), Token::Comma]);
    match &tokens[0] {
        Token::Number(bits) => assert_eq!(f64::from_bits(*bits), -3.99),
        other => panic!("expected a number, got {:?}", other),
    }
}

#[test]
fn number_is_flushed_by_each_terminator() {
    assert_eq!(parse_file(b"1,", decode), vec![number(1.0), Token::Comma]);
    assert_eq!(parse_file(b"2}", decode), vec![number(2.0), Token::CloseBrace]);
    assert_eq!(parse_file(b"3]", decode), vec![number(3.0), Token::CloseBracket]);
}

#[test]
fn number_without_terminator_yields_no_token() {
    assert_eq!(parse_file(b"-3.99", decode), Vec::<Token>::new());
    assert_eq!(parse_file(b"", decode), Vec::<Token>::new());
}

#[test]
fn opening_delimiters_do_not_flush_a_number() {
    assert_eq!(
        parse_file(b"1{2[3:4,", decode),
        vec![
            Token::OpenBrace,
            Token::OpenBracket,
            Token::Colon,
            number(1234.0),
            Token::Comma,
        ]
    );
}

#[test]
fn skipped_byte_does_not_end_a_number() {
    assert_eq!(parse_file(b"1 2,", decode), vec![number(12.0), Token::Comma]);
    assert_eq!(parse_file(b"4x5\n6}", decode), vec![number(456.0), Token::CloseBrace]);
}

#[test]
fn exponent_and_sign_bytes_join_the_number() {
    assert_eq!(parse_file(b"1.5e+3,", decode), vec![number(1500.0), Token::Comma]);
    assert_eq!(parse_file(b"25E-1]", decode), vec![number(2.5), Token::CloseBracket]);
}

#[test]
fn digit_text_that_is_no_number_is_dropped() {
    assert_eq!(parse_file(b"1-2,", decode), vec![Token::Comma]);
    assert_eq!(parse_file(b"e}", decode), vec![Token::CloseBrace]);
    assert_eq!(parse_file(b"..,7,", decode), vec![Token::Comma, number(7.0), Token::Comma]);
}

#[test]
fn string_keeps_every_byte_but_the_quote() {
    assert_eq!(
        parse_file(b"\"a{b}[c]:d,e 12\"", decode),
        vec![string("a{b}[c]:d,e 12")]
    );
    assert_eq!(parse_file(b"\"\"", decode), vec![string("")]);
    assert_eq!(parse_file(b"\"a\\\"b\"\"", decode), vec![string("a\\"), string("")]);
}

#[test]
fn string_bytes_are_taken_as_characters_of_the_same_code() {
    let tokens = parse_file(&[b'"', 0xc3, 0xa9, b'"'], decode);
    assert_eq!(tokens, vec![string("\u{c3}\u{a9}")]);
}

#[test]
fn unterminated_string_yields_no_token() {
    assert_eq!(parse_file(b"{\"abc", decode), vec![Token::OpenBrace]);
}

#[test]
fn pending_number_survives_a_string() {
    assert_eq!(
        parse_file(b"1\"a\"2,", decode),
        vec![string("a"), number(12.0), Token::Comma]
    );
}

#[test]
fn white_space_and_unknown_bytes_are_skipped() {
    assert_eq!(
        parse_file(b" {\n\t\"k\" :\r\n true null }", decode),
        vec![
            Token::OpenBrace,
            string("k"),
            Token::Colon,
            Token::CloseBrace,
        ]
    );
}

#[test]
fn tokenizes_one_pair() {
    let tokens = parse_file(b"{\"x0\":1.5,\"y0\":-2}", decode);
    assert_eq!(
        tokens,
        vec![
            Token::OpenBrace,
            string("x0"),
            Token::Colon,
            number(1.5),
            Token::Comma,
            string("y0"),
            Token::Colon,
            number(-2.0),
            Token::CloseBrace,
        ]
    );
}

#[test]
fn decoder_decides_what_a_number_is() {
    let always = |_: &str| Some(7u64);
    let never = |_: &str| None;
    assert_eq!(parse_file(b"1,", always), vec![Token::Number(7), Token::Comma]);
    assert_eq!(parse_file(b"1,", never), vec![Token::Comma]);
    assert_eq!(parse_file(b",", always), vec![Token::Comma]);
}

#[test]
fn digit_termination_appends_the_number_and_clears_the_buffer() {
    let mut output = vec![Token::Colon];
    let mut digit = "2.5".to_string();
    let mut in_digit = true;
    handle_digit_termination(&mut output, &mut digit, &mut in_digit, &decode);
    assert_eq!(output, vec![Token::Colon, number(2.5)]);
    assert_eq!(digit, "");
    assert!(!in_digit);
}

#[test]
fn digit_termination_drops_text_that_is_no_number() {
    let mut output = vec![Token::Colon];
    let mut digit = "--".to_string();
    let mut in_digit = true;
    handle_digit_termination(&mut output, &mut digit, &mut in_digit, &decode);
    assert_eq!(output, vec![Token::Colon]);
    assert_eq!(digit, "");
    assert!(!in_digit);
}

#[test]
fn digit_termination_with_empty_buffer_changes_nothing() {
    let mut output = vec![Token::Colon];
    let mut digit = String::new();
    let mut in_digit = true;
    let always = |_: &str| Some(1u64);
    handle_digit_termination(&mut output, &mut digit, &mut in_digit, &always);
    assert_eq!(output, vec![Token::Colon]);
    assert!(!in_digit);
}

#[test]
fn number_bytes_are_digits_signs_point_and_exponent() {
    for b in 0u8..=255 {
        let expected = b.is_ascii_digit() || matches!(b, b'-' | b'.' | b'e' | b'E' | b'+');
        assert_eq!(is_number(b), expected, "byte {}", b);
    }
}

#[test]
fn token_text_of_each_kind() {
    assert_eq!(Token::OpenBrace.format(&render), "{");
    assert_eq!(Token::CloseBrace.format(&render), "}");
    assert_eq!(Token::OpenBracket.format(&render), "[");
    assert_eq!(Token::CloseBracket.format(&render), "]");
    assert_eq!(Token::Comma.format(&render), ",");
    assert_eq!(Token::Colon.format(&render), ":");
    assert_eq!(string("x0").format(&render), "x0");
    assert_eq!(number(1.5).format(&render), "1.5");
    assert_eq!(number(-3.99).format(&render), "-3.99");
}
