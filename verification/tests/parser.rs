use haversine_core::lexer::{parse_file, Token};
use haversine_core::parser::{
    format_json, parse_tokens, JsonObject, JsonPrimitive, JsonValue, Parser,
};

fn decode(text: &str) -> Option<u64> {
    text.parse::<f64>().ok().map(f64::to_bits)
}

fn render(bits: u64) -> String {
    f64::from_bits(bits).to_string()
}

fn parse(document: &str) -> Option<JsonValue> {
    parse_tokens(&parse_file(document.as_bytes(), decode))
}

fn number(value: f64) -> JsonValue {
    JsonValue::Primitive(JsonPrimitive::Number(value.to_bits()))
}

fn string(text: &str) -> JsonValue {
    JsonValue::Primitive(JsonPrimitive::String(text.to_string()))
}

fn object(fields: Vec<(&str, JsonValue)>) -> JsonValue {
    let mut object = JsonObject::new();
    for (key, value) in fields {
        object.insert(key.to_string(), value);
    }
    JsonValue::Object(object)
}

#[test]
fn empty_pairs_array_is_never_closed() {
    let tokens = vec![
        Token::OpenBrace,
        Token::StringContent("pairs".to_string()),
        Token::Colon,
        Token::OpenBracket,
        Token::CloseBracket,
        Token::CloseBrace,
    ];
    assert_eq!(parse_tokens(&tokens), None);
}

#[test]
fn unterminated_object_has_no_root() {
    assert_eq!(parse("{\"a\":1"), None);
}

#[test]
fn no_tokens_have_no_root() {
    assert_eq!(parse_tokens(&[]), None);
}

#[test]
fn object_with_number_and_string_fields() {
    assert_eq!(
        parse("{\"a\":1.5,\"b\":\"text\"}"),
        Some(object(vec![("a", number(1.5)), ("b", string("text"))]))
    );
}

#[test]
fn one_pair_of_zeros_parses_to_four_number_fields() {
    let parsed = parse("{\"pairs\":[{\"x0\":0.0,\"y0\":0.0,\"x1\":0.0,\"y1\":0.0}]}");
    let pair = object(vec![
        ("x0", number(0.0)),
        ("y0", number(0.0)),
        ("x1", number(0.0)),
        ("y1", number(0.0)),
    ]);
    assert_eq!(parsed, Some(object(vec![("pairs", JsonValue::Array(vec![pair]))])));
}

#[test]
fn array_of_strings_at_the_root() {
    assert_eq!(
        parse("[\"a\",\"b\"]"),
        Some(JsonValue::Array(vec![string("a"), string("b")]))
    );
}

#[test]
fn array_inside_object_inside_array() {
    assert_eq!(
        parse("[{\"k\":[\"v\"]}]"),
        Some(JsonValue::Array(vec![object(vec![(
            "k",
            JsonValue::Array(vec![string("v")])
        )])]))
    );
}

#[test]
fn object_inside_object() {
    assert_eq!(
        parse("{\"outer\":{\"inner\":2}}"),
        Some(object(vec![("outer", object(vec![("inner", number(2.0))]))]))
    );
}

#[test]
fn number_in_an_array_is_dropped_and_the_array_stays_open() {
    assert_eq!(parse("[1]"), None);
    assert_eq!(parse("[1,\"a\"]"), Some(JsonValue::Array(vec![string("a")])));
}

#[test]
fn empty_containers_are_never_closed() {
    assert_eq!(parse("{}"), None);
    assert_eq!(parse("[]"), None);
}

#[test]
fn array_directly_inside_an_array_is_not_opened() {
    assert_eq!(parse("[[\"a\"]"), Some(JsonValue::Array(vec![string("a")])));
}

#[test]
fn primitive_at_the_root_is_dropped() {
    assert_eq!(parse("\"a\""), None);
    assert_eq!(parse("1,"), None);
}

#[test]
fn repeated_key_keeps_its_place_and_takes_the_last_value() {
    let parsed = parse("{\"a\":1,\"b\":2,\"a\":3}");
    assert_eq!(parsed, Some(object(vec![("a", number(3.0)), ("b", number(2.0))])));
    assert_eq!(format_json(&parsed.unwrap(), &render), "{\"a\":3,\"b\":2}");
}

#[test]
fn tokens_without_use_are_dropped() {
    assert_eq!(
        parse("{:,\"a\"\"b\":[:\"c\"}\"d\"]]}"),
        Some(object(vec![("a", JsonValue::Array(vec![string("c")]))]))
    );
}

#[test]
fn tokens_after_the_root_are_dropped() {
    assert_eq!(
        parse("{\"a\":1}}]{\"b\":2}"),
        Some(object(vec![("a", number(1.0))]))
    );
}

#[test]
fn parser_can_be_fed_token_by_token() {
    let mut parser = Parser::new();
    for token in parse_file(b"{\"a\":[\"b\"]}", decode) {
        parser.feed(&token);
    }
    assert_eq!(
        parser.finish(),
        Some(object(vec![("a", JsonValue::Array(vec![string("b")]))]))
    );
    assert_eq!(Parser::new().finish(), None);
}

#[test]
fn deeply_nested_arrays_parse_without_recursion() {
    let depth = 10_000;
    let mut document = String::new();
    for _ in 0..depth {
        document.push_str("[{\"a\":");
    }
    document.push_str("\"leaf\"");
    for _ in 0..depth {
        document.push_str("}]");
    }
    let root = parse(&document).expect("a deep document has a root");
    let mut value = &root;
    let mut levels = 0;
    loop {
        value = match value {
            JsonValue::Array(items) => {
                assert_eq!(items.len(), 1);
                levels += 1;
                &items[0]
            }
            JsonValue::Object(object) => {
                assert_eq!(object.len(), 1);
                assert_eq!(object.key_at(0).unwrap(), "a");
                object.value_at(0).unwrap()
            }
            JsonValue::Primitive(leaf) => {
                assert_eq!(leaf, &JsonPrimitive::String("leaf".to_string()));
                break;
            }
        };
    }
    assert_eq!(levels, depth);
}

#[test]
fn ten_thousand_opening_brackets_open_one_array() {
    let mut document = "[".repeat(10_000);
    document.push_str("\"x\"");
    document.push_str(&"]".repeat(10_000));
    assert_eq!(parse(&document), Some(JsonValue::Array(vec![string("x")])));
}

#[test]
fn formats_each_kind_of_value() {
    assert_eq!(format_json(&string("abc"), &render), "\"abc\"");
    assert_eq!(format_json(&number(-3.99), &render), "-3.99");
    assert_eq!(format_json(&object(vec![]), &render), "{}");
    assert_eq!(format_json(&JsonValue::Array(vec![]), &render), "[]");
    assert_eq!(
        format_json(&JsonValue::Array(vec![string("a"), number(1.0), number(2.5)]), &render),
        "[\"a\",1,2.5]"
    );
    assert_eq!(
        format_json(
            &object(vec![
                ("x", number(0.5)),
                ("list", JsonValue::Array(vec![object(vec![("k", string("v"))])])),
            ]),
            &render
        ),
        "{\"x\":0.5,\"list\":[{\"k\":\"v\"}]}"
    );
}

#[test]
fn format_does_not_escape() {
    assert_eq!(format_json(&string("a\\b\n"), &render), "\"a\\b\n\"");
    assert_eq!(
        format_json(&object(vec![("k\t", string("é"))]), &render),
        "{\"k\t\":\"é\"}"
    );
}

#[test]
fn format_uses_the_renderer_for_numbers() {
    let stars = |_: u64| "*".to_string();
    assert_eq!(
        format_json(&JsonValue::Array(vec![number(1.0), number(2.0)]), &stars),
        "[*,*]"
    );
}

#[test]
fn object_insert_get_and_order() {
    let mut object = JsonObject::new();
    assert_eq!(object.len(), 0);
    assert_eq!(object.get("a"), None);
    object.insert("a".to_string(), number(1.0));
    object.insert("b".to_string(), string("two"));
    object.insert("a".to_string(), number(3.0));
    assert_eq!(object.len(), 2);
    assert_eq!(object.get("a"), Some(&number(3.0)));
    assert_eq!(object.get("b"), Some(&string("two")));
    assert_eq!(object.get("c"), None);
    assert_eq!(object.key_at(0), Some(&"a".to_string()));
    assert_eq!(object.value_at(0), Some(&number(3.0)));
    assert_eq!(object.key_at(1), Some(&"b".to_string()));
    assert_eq!(object.value_at(1), Some(&string("two")));
    assert_eq!(object.key_at(2), None);
    assert_eq!(object.value_at(2), None);
}

#[test]
fn stacks_grow_and_shrink_with_the_nesting() {
    let tokens = parse_file(b"{\"a\":[{\"b\":\"c\"},\"d\"],\"e\":1}", decode);
    let expected = [
        (2, 1, 0), // {
        (2, 1, 1), // "a"
        (3, 1, 1), // :
        (5, 2, 1), // [
        (6, 3, 1), // {
        (6, 3, 2), // "b"
        (7, 3, 2), // :
        (6, 3, 1), // "c"
        (4, 2, 1), // }
        (5, 2, 1), // ,
        (4, 2, 1), // "d"
        (2, 1, 0), // ]
        (2, 1, 0), // ,
        (2, 1, 1), // "e"
        (3, 1, 1), // :
        (2, 1, 0), // 1
        (0, 1, 0), // }
    ];
    assert_eq!(tokens.len(), expected.len());
    let mut parser = Parser::new();
    assert_eq!(
        (parser.state_stack_len(), parser.value_stack_len(), parser.key_stack_len()),
        (1, 0, 0)
    );
    for (token, sizes) in tokens.iter().zip(expected) {
        parser.feed(token);
        assert_eq!(
            (parser.state_stack_len(), parser.value_stack_len(), parser.key_stack_len()),
            sizes,
            "after {:?}",
            token
        );
    }
    assert!(parser.finish().is_some());
}

#[test]
fn duplicate_is_equal_and_independent() {
    let root = parse("{\"a\":[{\"b\":\"c\"},\"d\"],\"e\":1.5}").unwrap();
    let mut copy = root.duplicate();
    assert_eq!(copy, root);
    if let JsonValue::Object(fields) = &mut copy {
        fields.insert("e".to_string(), number(2.0));
    }
    assert_ne!(copy, root);
    assert_eq!(format_json(&root, &render), "{\"a\":[{\"b\":\"c\"},\"d\"],\"e\":1.5}");
    assert_eq!(format_json(&copy, &render), "{\"a\":[{\"b\":\"c\"},\"d\"],\"e\":2}");
}
