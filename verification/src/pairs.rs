use vstd::prelude::*;
use crate::parser::{
    Entries, JsonModel, JsonObject, JsonPrimitive, JsonValue, array_model, lookup,
};

verus! {

/// Two points, each coordinate held as the IEEE 754 bit pattern of its
/// double-precision value.
#[derive(Clone, Copy, Debug, PartialEq, Eq)]
pub struct Pair {
    pub x0: u64,
    pub y0: u64,
    pub x1: u64,
    pub y1: u64,
}

impl Pair {
    /// The pair of the points (`x0`, `y0`) and (`x1`, `y1`).
    pub fn new(x0: u64, y0: u64, x1: u64, y1: u64) -> (pair: Pair)
        ensures
            pair == (Pair { x0, y0, x1, y1 }),
    {
        Pair { x0, y0, x1, y1 }
    }
}

/// A list of pairs.
#[derive(Clone, Debug, PartialEq, Eq)]
pub struct Pairs {
    pairs: Vec<Pair>,
}

impl View for Pairs {
    type V = Seq<Pair>;

    closed spec fn view(&self) -> Seq<Pair> {
        self.pairs@
    }
}

impl Pairs {
    /// An empty list with room for `capacity` pairs.
    pub fn with_capacity(capacity: usize) -> (pairs: Pairs)
        ensures
            pairs@ == Seq::<Pair>::empty(),
    {
        Pairs { pairs: Vec::with_capacity(capacity) }
    }

    /// Adds a pair at the end.
    pub fn push(&mut self, pair: Pair)
        ensures
            final(self)@ == old(self)@.push(pair),
    {
        self.pairs.push(pair);
    }

    /// The number of pairs.
    pub fn len(&self) -> (n: usize)
        ensures
            n == self@.len(),
    {
        self.pairs.len()
    }

    /// The pair at position `i`, if there is one.
    pub fn get(&self, i: usize) -> (pair: Option<Pair>)
        ensures
            pair == if i < self@.len() {
                Some(self@[i as int])
            } else {
                None
            },
    {
        if i < self.pairs.len() {
            Some(self.pairs[i])
        } else {
            None
        }
    }
}

/// A field of a coordinate-pair document.
#[derive(Clone, Copy, Debug, PartialEq, Eq)]
pub enum Field {
    Pairs,
    X0,
    Y0,
    X1,
    Y1,
}

/// What a tree lacks to be read as coordinate pairs.
#[derive(Clone, Copy, Debug, PartialEq, Eq)]
pub enum SchemaError {
    /// An object has no field of that name.
    MissingField(Field),
    /// The field of a pair holds something other than a number.
    NotANumber(Field),
}

/// The key `pairs`.
pub open spec fn key_pairs() -> Seq<char> {
    seq!['p', 'a', 'i', 'r', 's']
}

/// The key `x0`.
pub open spec fn key_x0() -> Seq<char> {
    seq!['x', '0']
}

/// The key `y0`.
pub open spec fn key_y0() -> Seq<char> {
    seq!['y', '0']
}

/// The key `x1`.
pub open spec fn key_x1() -> Seq<char> {
    seq!['x', '1']
}

/// The key `y1`.
pub open spec fn key_y1() -> Seq<char> {
    seq!['y', '1']
}

/// The key under which a field stands.
pub open spec fn field_key(field: Field) -> Seq<char> {
    match field {
        Field::Pairs => key_pairs(),
        Field::X0 => key_x0(),
        Field::Y0 => key_y0(),
        Field::X1 => key_x1(),
        Field::Y1 => key_y1(),
    }
}

/// The number under a field of an object, or why there is none.
pub open spec fn number_field(entries: Entries, field: Field) -> Result<u64, SchemaError> {
    match lookup(entries, field_key(field)) {
        Some(JsonModel::Number(n)) => Ok(n),
        Some(_) => Err(SchemaError::NotANumber(field)),
        None => Err(SchemaError::MissingField(field)),
    }
}

/// The pair that an object holds: its fields `x0`, `y0`, `x1` and `y1`, or
/// the first of them, in this order, that is missing or no number.
pub open spec fn pair_of(entries: Entries) -> Result<Pair, SchemaError> {
    match number_field(entries, Field::X0) {
        Err(e) => Err(e),
        Ok(x0) => match number_field(entries, Field::Y0) {
            Err(e) => Err(e),
            Ok(y0) => match number_field(entries, Field::X1) {
                Err(e) => Err(e),
                Ok(x1) => match number_field(entries, Field::Y1) {
                    Err(e) => Err(e),
                    Ok(y1) => Ok(Pair { x0, y0, x1, y1 }),
                },
            },
        },
    }
}

/// The pairs of the first `k` elements of an array. An element that is no
/// object is passed over; the first object that holds no pair ends the
/// reading with its error.
pub open spec fn pairs_of(items: Seq<JsonModel>, k: int) -> Result<Seq<Pair>, SchemaError>
    decreases k,
{
    if k <= 0 {
        Ok(Seq::empty())
    } else {
        match pairs_of(items, k - 1) {
            Err(e) => Err(e),
            Ok(pairs) => match items[k - 1] {
                JsonModel::Object(entries) => match pair_of(entries) {
                    Err(e) => Err(e),
                    Ok(pair) => Ok(pairs.push(pair)),
                },
                _ => Ok(pairs),
            },
        }
    }
}

/// An error among the first `k` elements is the error of every longer prefix.
pub proof fn lemma_pairs_of_error(items: Seq<JsonModel>, k: int, n: int)
    requires
        k <= n,
        pairs_of(items, k) is Err,
    ensures
        pairs_of(items, n) == pairs_of(items, k),
    decreases n - k,
{
    if k < n {
        lemma_pairs_of_error(items, k, n - 1);
    }
}

/// The coordinate pairs of a document. A root that is no object, and a
/// field `pairs` that is no array, hold no pairs; a root object without the
/// field `pairs` is an error.
pub open spec fn coordinate_pairs_of(root: JsonModel) -> Result<Seq<Pair>, SchemaError> {
    match root {
        JsonModel::Object(entries) => match lookup(entries, key_pairs()) {
            None => Err(SchemaError::MissingField(Field::Pairs)),
            Some(JsonModel::Array(items)) => pairs_of(items, items.len() as int),
            Some(_) => Ok(Seq::empty()),
        },
        _ => Ok(Seq::empty()),
    }
}

/// The name of a field.
pub fn field_name(field: Field) -> (name: &'static str)
    ensures
        name@ == field_key(field),
{
    proof {
        reveal_strlit("pairs");
        reveal_strlit("x0");
        reveal_strlit("y0");
        reveal_strlit("x1");
        reveal_strlit("y1");
    }
    let name = match field {
        Field::Pairs => "pairs",
        Field::X0 => "x0",
        Field::Y0 => "y0",
        Field::X1 => "x1",
        Field::Y1 => "y1",
    };
    assert(name@ =~= field_key(field));
    name
}

/// The bit pattern of a value that is a number.
pub fn get_number_from_json(json: &JsonValue) -> (number: Option<u64>)
    ensures
        number == match json@ {
            JsonModel::Number(n) => Some(n),
            _ => None,
        },
{
    match json {
        JsonValue::Primitive(JsonPrimitive::Number(n)) => Some(*n),
        _ => None,
    }
}

/// The number under a field of an object.
pub fn get_number_field(object: &JsonObject, field: Field) -> (number: Result<u64, SchemaError>)
    ensures
        number == number_field(object@, field),
{
    match object.get(field_name(field)) {
        None => Err(SchemaError::MissingField(field)),
        Some(value) => match get_number_from_json(value) {
            Some(n) => Ok(n),
            None => Err(SchemaError::NotANumber(field)),
        },
    }
}

/// The pair that an object holds.
pub fn pair_from_object(object: &JsonObject) -> (pair: Result<Pair, SchemaError>)
    ensures
        pair == pair_of(object@),
{
    let x0 = match get_number_field(object, Field::X0) {
        Ok(n) => n,
        Err(e) => { return Err(e); },
    };
    let y0 = match get_number_field(object, Field::Y0) {
        Ok(n) => n,
        Err(e) => { return Err(e); },
    };
    let x1 = match get_number_field(object, Field::X1) {
        Ok(n) => n,
        Err(e) => { return Err(e); },
    };
    let y1 = match get_number_field(object, Field::Y1) {
        Ok(n) => n,
        Err(e) => { return Err(e); },
    };
    Ok(Pair::new(x0, y0, x1, y1))
}

/// The value of an optional list of pairs.
pub open spec fn pairs_view(pairs: Result<Pairs, SchemaError>) -> Result<Seq<Pair>, SchemaError> {
    match pairs {
        Ok(p) => Ok(p@),
        Err(e) => Err(e),
    }
}

/// Reads the coordinate pairs out of a parsed document.
pub fn coordinate_pairs(json: &JsonValue) -> (pairs: Result<Pairs, SchemaError>)
    ensures
        pairs_view(pairs) == coordinate_pairs_of(json@),
{
    let object = match json {
        JsonValue::Object(object) => object,
        _ => { return Ok(Pairs::with_capacity(0)); },
    };
    let items = match object.get(field_name(Field::Pairs)) {
        None => { return Err(SchemaError::MissingField(Field::Pairs)); },
        Some(JsonValue::Array(items)) => items,
        Some(_) => { return Ok(Pairs::with_capacity(0)); },
    };
    let mut pairs = Pairs::with_capacity(items.len());
    let mut i: usize = 0;
    while i < items.len()
        invariant
            i <= items.len(),
            coordinate_pairs_of(json@) == pairs_of(array_model(*items), items.len() as int),
            pairs_of(array_model(*items), i as int) == Ok::<Seq<Pair>, SchemaError>(pairs@),
        decreases items.len() - i,
    {
        assert(array_model(*items)[i as int] == items[i as int]@);
        match &items[i] {
            JsonValue::Object(pair_object) => {
                match pair_from_object(pair_object) {
                    Ok(pair) => { pairs.push(pair); },
                    Err(e) => {
                        proof {
                            assert(pairs_of(array_model(*items), i + 1) == Err::<
                                Seq<Pair>,
                                SchemaError,
                            >(e));
                            lemma_pairs_of_error(array_model(*items), i + 1, items.len() as int);
                        }
                        return Err(e);
                    },
                }
            },
            _ => {},
        }
        i += 1;
    }
    Ok(pairs)
}

} // verus!
