use haversine_core::lexer::parse_file;
use haversine_core::pairs::{
    coordinate_pairs, field_name, get_number_field, get_number_from_json, pair_from_object, Field,
    Pair, Pairs, SchemaError,
};
use haversine_core::parser::{format_json, parse_tokens, JsonObject, JsonPrimitive, JsonValue};

fn decode(text: &str) -> Option<u64> {
    text.parse::<f64>().ok().map(f64::to_bits)
}

fn render(bits: u64) -> String {
    f64::from_bits(bits).to_string()
}

fn parse(document: &str) -> Option<JsonValue> {
    parse_tokens(&parse_file(document.as_bytes(), decode))
}

fn number(value: f64) -> JsonValue {
    JsonValue::Primitive(JsonPrimitive::Number(value.to_bits()))
}

fn object(fields: Vec<(&str, JsonValue)>) -> JsonObject {
    let mut object = JsonObject::new();
    for (key, value) in fields {
        object.insert(key.to_string(), value);
    }
    object
}

fn pair(x0: f64, y0: f64, x1: f64, y1: f64) -> Pair {
    Pair::new(x0.to_bits(), y0.to_bits(), x1.to_bits(), y1.to_bits())
}

fn list(pairs: &[Pair]) -> Pairs {
    let mut list = Pairs::with_capacity(pairs.len());
    for p in pairs {
        list.push(*p);
    }
    list
}

fn haversine(p: &Pair, earth_radius: f64) -> f64 {
    let (lat0, lng0) = (f64::from_bits(p.x0), f64::from_bits(p.y0));
    let (lat1, lng1) = (f64::from_bits(p.x1), f64::from_bits(p.y1));
    let d_lat = (lat1 - lat0).to_radians();
    let d_lon = (lng1 - lng0).to_radians();
    let a = (d_lat / 2.0).sin().powi(2)
        + lat0.to_radians().cos() * lat1.to_radians().cos() * (d_lon / 2.0).sin().powi(2);
    earth_radius * 2.0 * a.sqrt().asin()
}

#[test]
fn one_pair_of_zeros_has_distance_zero() {
    let root = parse("{\"pairs\":[{\"x0\":0.0,\"y0\":0.0,\"x1\":0.0,\"y1\":0.0}]}").unwrap();
    let pairs = coordinate_pairs(&root).unwrap();
    assert_eq!(pairs.len(), 1);
    let only = pairs.get(0).unwrap();
    assert_eq!(only, pair(0.0, 0.0, 0.0, 0.0));
    assert_eq!(haversine(&only, 6372.8), 0.0);
}

#[test]
fn two_pairs_keep_their_coordinates_bit_for_bit() {
    let document = "{\"pairs\":[\
        {\"x0\":-3.99,\"y0\":101.25,\"x1\":2.5e-3,\"y1\":99.000001},\
        {\"x0\":0.1,\"y0\":102,\"x1\":-0.30000000000000004,\"y1\":1E2}]}";
    let pairs = coordinate_pairs(&parse(document).unwrap()).unwrap();
    assert_eq!(
        pairs,
        list(&[
            pair(-3.99, 101.25, 2.5e-3, 99.000001),
            pair(0.1, 102.0, -0.30000000000000004, 1E2),
        ])
    );
    let first = pairs.get(0).unwrap();
    assert_eq!(f64::from_bits(first.x0).to_bits(), (-3.99f64).to_bits());
    assert_eq!(f64::from_bits(first.y1), 99.000001);
    assert_eq!(pairs.get(2), None);
}

#[test]
fn spaced_document_parses_like_the_compact_one() {
    let spaced = "{\n  \"pairs\": [\n    {\n      \"x0\": 1.5,\n      \"y0\": 100.0,\n      \
                  \"x1\": -2.25,\n      \"y1\": 101.5\n    },\n    {\n      \"x0\": 3.0,\n      \
                  \"y0\": 99.5,\n      \"x1\": 0.0,\n      \"y1\": 102.0\n    }\n  ]\n}";
    let compact = "{\"pairs\":[{\"x0\":1.5,\"y0\":100,\"x1\":-2.25,\"y1\":101.5},\
                   {\"x0\":3,\"y0\":99.5,\"x1\":0,\"y1\":102}]}";
    let root = parse(spaced).unwrap();
    assert_eq!(Some(&root), parse(compact).as_ref());
    assert_eq!(
        coordinate_pairs(&root),
        Ok(list(&[pair(1.5, 100.0, -2.25, 101.5), pair(3.0, 99.5, 0.0, 102.0)]))
    );
}

#[test]
fn document_round_trips_through_the_formatter() {
    let document = "{ \"pairs\" : [ {\"x0\": -3.99, \"y0\": 1e2, \"x1\": 3.14159, \"y1\": 99.5 } ] }";
    let root = parse(document).unwrap();
    let written = format_json(&root, &render);
    assert_eq!(
        written,
        "{\"pairs\":[{\"x0\":-3.99,\"y0\":100,\"x1\":3.14159,\"y1\":99.5}]}"
    );
    let again = parse(&written).unwrap();
    assert_eq!(again, root);
    assert_eq!(
        coordinate_pairs(&again),
        Ok(list(&[pair(-3.99, 100.0, 3.14159, 99.5)]))
    );
}

#[test]
fn document_without_pairs_field_is_an_error() {
    let root = parse("{\"other\":[{\"x0\":1}]}").unwrap();
    assert_eq!(coordinate_pairs(&root), Err(SchemaError::MissingField(Field::Pairs)));
}

#[test]
fn root_that_is_no_object_holds_no_pairs() {
    let root = parse("[{\"x0\":1,\"y0\":2,\"x1\":3,\"y1\":4}]").unwrap();
    assert_eq!(coordinate_pairs(&root), Ok(list(&[])));
    assert_eq!(coordinate_pairs(&number(1.0)), Ok(list(&[])));
}

#[test]
fn pairs_field_that_is_no_array_holds_no_pairs() {
    let root = parse("{\"pairs\":{\"x0\":1,\"y0\":2,\"x1\":3,\"y1\":4}}").unwrap();
    assert_eq!(coordinate_pairs(&root), Ok(list(&[])));
}

#[test]
fn element_that_is_no_object_is_passed_over() {
    let root = parse("{\"pairs\":[\"skip\",{\"x0\":1,\"y0\":2,\"x1\":3,\"y1\":4},\"skip\"]}").unwrap();
    assert_eq!(coordinate_pairs(&root), Ok(list(&[pair(1.0, 2.0, 3.0, 4.0)])));
}

#[test]
fn missing_coordinate_is_an_error() {
    let cases = [
        ("{\"pairs\":[{\"y0\":2,\"x1\":3,\"y1\":4}]}", Field::X0),
        ("{\"pairs\":[{\"x0\":1,\"x1\":3,\"y1\":4}]}", Field::Y0),
        ("{\"pairs\":[{\"x0\":1,\"y0\":2,\"y1\":4}]}", Field::X1),
        ("{\"pairs\":[{\"x0\":1,\"y0\":2,\"x1\":3,\"z\":4}]}", Field::Y1),
    ];
    for (document, field) in cases {
        let root = parse(document).unwrap();
        assert_eq!(coordinate_pairs(&root), Err(SchemaError::MissingField(field)));
    }
}

#[test]
fn coordinate_that_is_no_number_is_an_error() {
    let root = parse("{\"pairs\":[{\"x0\":1,\"y0\":\"2\",\"x1\":3,\"y1\":4}]}").unwrap();
    assert_eq!(coordinate_pairs(&root), Err(SchemaError::NotANumber(Field::Y0)));
    let nested = parse("{\"pairs\":[{\"x0\":1,\"y0\":2,\"x1\":[\"3\"],\"y1\":4}]}").unwrap();
    assert_eq!(coordinate_pairs(&nested), Err(SchemaError::NotANumber(Field::X1)));
}

#[test]
fn first_error_in_document_order_is_reported() {
    let root = parse(
        "{\"pairs\":[{\"x0\":1,\"y0\":2,\"x1\":3,\"y1\":4},{\"x0\":1,\"y1\":\"4\"},{\"x0\":\"1\"}]}",
    )
    .unwrap();
    assert_eq!(coordinate_pairs(&root), Err(SchemaError::MissingField(Field::Y0)));
}

#[test]
fn number_accessors() {
    assert_eq!(get_number_from_json(&number(2.5)), Some((2.5f64).to_bits()));
    assert_eq!(
        get_number_from_json(&JsonValue::Primitive(JsonPrimitive::String("2.5".to_string()))),
        None
    );
    assert_eq!(get_number_from_json(&JsonValue::Array(vec![number(1.0)])), None);
    let fields = object(vec![("x0", number(7.0)), ("y0", JsonValue::Array(vec![]))]);
    assert_eq!(get_number_field(&fields, Field::X0), Ok((7.0f64).to_bits()));
    assert_eq!(get_number_field(&fields, Field::Y0), Err(SchemaError::NotANumber(Field::Y0)));
    assert_eq!(get_number_field(&fields, Field::Y1), Err(SchemaError::MissingField(Field::Y1)));
    assert_eq!(pair_from_object(&fields), Err(SchemaError::NotANumber(Field::Y0)));
}

#[test]
fn field_names() {
    assert_eq!(field_name(Field::Pairs), "pairs");
    assert_eq!(field_name(Field::X0), "x0");
    assert_eq!(field_name(Field::Y0), "y0");
    assert_eq!(field_name(Field::X1), "x1");
    assert_eq!(field_name(Field::Y1), "y1");
}

#[test]
fn pairs_list_grows_in_order() {
    let mut pairs = Pairs::with_capacity(2);
    assert_eq!(pairs.len(), 0);
    assert_eq!(pairs.get(0), None);
    pairs.push(Pair::new(1, 2, 3, 4));
    pairs.push(Pair::new(5, 6, 7, 8));
    pairs.push(Pair::new(9, 10, 11, 12));
    assert_eq!(pairs.len(), 3);
    assert_eq!(pairs.get(1), Some(Pair { x0: 5, y0: 6, x1: 7, y1: 8 }));
}
