use vstd::prelude::*;
use vstd::string::StringExecFns;
use crate::lexer::{Token, TokenView, token_views, Rendering, renders_as};

verus! {

/// What the parser expects next, at one level of nesting.
#[derive(Clone, Copy, Debug, PartialEq, Eq)]
pub enum StateItem {
    InObject,
    InArray,
    ExpectingKey,
    ExpectingColon,
    ExpectingValue,
    ExpectingValueInObject,
    ExpectingValueInArray,
    ExpectingCommaOrEndObject,
    ExpectingCommaOrEndArray,
}

/// A string or a number.
///
/// A number is held as the IEEE 754 bit pattern of its double-precision
/// value, as in [`crate::lexer::Token`].
#[derive(Clone, Debug, PartialEq)]
pub enum JsonPrimitive {
    String(String),
    Number(u64),
}

/// A parsed document: a primitive, an object or an array.
#[derive(Debug, PartialEq)]
pub enum JsonValue {
    Primitive(JsonPrimitive),
    Object(JsonObject),
    Array(Vec<JsonValue>),
}

/// The fields of an object: keys with their values, no key twice, in the
/// order in which the keys first came.
#[derive(Debug, PartialEq)]
pub struct JsonObject {
    entries: Vec<(String, JsonValue)>,
}

/// The mathematical value of a [`JsonValue`].
pub enum JsonModel {
    String(Seq<char>),
    Number(u64),
    Object(Seq<(Seq<char>, JsonModel)>),
    Array(Seq<JsonModel>),
}

/// The fields of an object as mathematical values.
pub type Entries = Seq<(Seq<char>, JsonModel)>;

/// The value that `v` stands for.
pub open spec fn value_model(v: JsonValue) -> JsonModel
    decreases v, 1int,
{
    match v {
        JsonValue::Primitive(JsonPrimitive::String(s)) => JsonModel::String(s@),
        JsonValue::Primitive(JsonPrimitive::Number(n)) => JsonModel::Number(n),
        JsonValue::Object(o) => JsonModel::Object(object_model(o)),
        JsonValue::Array(a) => JsonModel::Array(array_model(a)),
    }
}

/// The values that the elements of `a` stand for, in order.
pub open spec fn array_model(a: Vec<JsonValue>) -> Seq<JsonModel>
    decreases a, 0int,
{
    Seq::new(
        a.len() as nat,
        |i: int|
            if 0 <= i < a.len() {
                value_model(a[i])
            } else {
                JsonModel::Number(0)
            },
    )
}

/// The fields that `o` holds, in order.
pub closed spec fn object_model(o: JsonObject) -> Entries
    decreases o, 1int,
{
    entries_model(o.entries)
}

/// The fields that a list of keys and values stands for.
pub open spec fn entries_model(entries: Vec<(String, JsonValue)>) -> Entries
    decreases entries, 0int,
{
    Seq::new(
        entries.len() as nat,
        |i: int|
            if 0 <= i < entries.len() {
                (entries[i].0@, value_model(entries[i].1))
            } else {
                (Seq::<char>::empty(), JsonModel::Number(0))
            },
    )
}

impl View for JsonValue {
    type V = JsonModel;

    open spec fn view(&self) -> JsonModel {
        value_model(*self)
    }
}

impl View for JsonObject {
    type V = Entries;

    open spec fn view(&self) -> Entries {
        object_model(*self)
    }
}

/// Whether some field has the key.
pub open spec fn has_key(entries: Entries, key: Seq<char>) -> bool {
    exists|i: int| 0 <= i < entries.len() && (#[trigger] entries[i]).0 == key
}

/// `i` is the first position that holds the key.
pub open spec fn is_first_index(entries: Entries, key: Seq<char>, i: int) -> bool {
    &&& 0 <= i < entries.len()
    &&& entries[i].0 == key
    &&& forall|j: int| 0 <= j < i ==> (#[trigger] entries[j]).0 != key
}

/// The first position that holds the key, where one does.
pub open spec fn first_index(entries: Entries, key: Seq<char>) -> int {
    choose|i: int| is_first_index(entries, key, i)
}

/// No key occurs twice.
pub open spec fn distinct_keys(entries: Entries) -> bool {
    forall|i: int, j: int|
        0 <= i < j < entries.len() ==> (#[trigger] entries[i]).0 != (#[trigger] entries[j]).0
}

/// The fields after `key` is given `value`: the value of a key that is there
/// is replaced in place, a new key goes to the end.
pub open spec fn insert_entry(entries: Entries, key: Seq<char>, value: JsonModel) -> Entries {
    if has_key(entries, key) {
        entries.update(first_index(entries, key), (key, value))
    } else {
        entries.push((key, value))
    }
}

/// The value of `key`, if the key is there.
pub open spec fn lookup(entries: Entries, key: Seq<char>) -> Option<JsonModel> {
    if has_key(entries, key) {
        Some(entries[first_index(entries, key)].1)
    } else {
        None
    }
}

/// A key that is found at `i`, and nowhere before, has `i` as its first position.
pub proof fn lemma_first_index(entries: Entries, key: Seq<char>, i: int)
    requires
        is_first_index(entries, key, i),
    ensures
        has_key(entries, key),
        first_index(entries, key) == i,
{
    let k = first_index(entries, key);
    assert(is_first_index(entries, key, k));
    if k < i {
        assert(entries[k].0 != key);
    }
    if i < k {
        assert(entries[i].0 != key);
    }
}

/// A key that is there has a first position.
pub proof fn lemma_first_index_exists(entries: Entries, key: Seq<char>)
    requires
        has_key(entries, key),
    ensures
        is_first_index(entries, key, first_index(entries, key)),
{
    let i = choose|i: int| 0 <= i < entries.len() && (#[trigger] entries[i]).0 == key;
    lemma_first_index_before(entries, key, i);
}

/// A key that is found at `i` has a first position at or before `i`.
proof fn lemma_first_index_before(entries: Entries, key: Seq<char>, i: int)
    requires
        0 <= i < entries.len(),
        entries[i].0 == key,
    ensures
        exists|k: int| is_first_index(entries, key, k),
    decreases i,
{
    if forall|j: int| 0 <= j < i ==> (#[trigger] entries[j]).0 != key {
        assert(is_first_index(entries, key, i));
    } else {
        let j = choose|j: int| 0 <= j < i && (#[trigger] entries[j]).0 == key;
        lemma_first_index_before(entries, key, j);
    }
}

/// Inserting keeps the keys distinct.
pub proof fn lemma_insert_keeps_distinct(entries: Entries, key: Seq<char>, value: JsonModel)
    requires
        distinct_keys(entries),
    ensures
        distinct_keys(insert_entry(entries, key, value)),
{
    let after = insert_entry(entries, key, value);
    if has_key(entries, key) {
        let k = first_index(entries, key);
        lemma_first_index_exists(entries, key);
        assert forall|i: int, j: int| 0 <= i < j < after.len() implies (#[trigger] after[i]).0 != (
        #[trigger] after[j]).0 by {
            assert(after[i].0 == entries[i].0);
            assert(after[j].0 == entries[j].0);
        }
    } else {
        assert forall|i: int, j: int| 0 <= i < j < after.len() implies (#[trigger] after[i]).0 != (
        #[trigger] after[j]).0 by {
            if j < entries.len() {
                assert(after[i] == entries[i]);
                assert(after[j] == entries[j]);
            } else {
                assert(after[i] == entries[i]);
            }
        }
    }
}

impl JsonObject {
    #[verifier::type_invariant]
    spec fn well_formed(self) -> bool {
        distinct_keys(object_model(self))
    }

    /// An object without fields.
    pub fn new() -> (object: JsonObject)
        ensures
            object@ == Seq::<(Seq<char>, JsonModel)>::empty(),
            distinct_keys(object@),
    {
        JsonObject { entries: Vec::new() }
    }

    /// The number of fields.
    pub fn len(&self) -> (n: usize)
        ensures
            n == self@.len(),
            distinct_keys(self@),
    {
        proof {
            use_type_invariant(self);
        }
        self.entries.len()
    }

    /// The first position that holds `key`, if one does.
    fn position(&self, key: &String) -> (found: Option<usize>)
        ensures
            match found {
                Some(i) => is_first_index(self@, key@, i as int),
                None => !has_key(self@, key@),
            },
    {
        let mut i: usize = 0;
        while i < self.entries.len()
            invariant
                i <= self.entries.len(),
                forall|j: int| 0 <= j < i ==> (#[trigger] self@[j]).0 != key@,
            decreases self.entries.len() - i,
        {
            if self.entries[i].0 == *key {
                return Some(i);
            }
            i += 1;
        }
        None
    }

    /// Gives `key` the value `value`. The value of a key that is there is
    /// replaced and the key keeps its place; a new key goes to the end.
    pub fn insert(&mut self, key: String, value: JsonValue)
        ensures
            final(self)@ == insert_entry(old(self)@, key@, value@),
            distinct_keys(final(self)@),
    {
        proof {
            use_type_invariant(&*self);
            lemma_insert_keeps_distinct(self@, key@, value@);
        }
        let found = self.position(&key);
        let mut entries: Vec<(String, JsonValue)> = Vec::new();
        core::mem::swap(&mut self.entries, &mut entries);
        assert(entries_model(entries) == old(self)@);
        match found {
            Some(i) => {
                proof {
                    lemma_first_index(old(self)@, key@, i as int);
                }
                entries[i] = (key, value);
                assert(entries_model(entries) == old(self)@.update(i as int, (key@, value@)));
            },
            None => {
                entries.push((key, value));
                assert(entries_model(entries) == old(self)@.push((key@, value@)));
            },
        }
        self.entries = entries;
    }

    /// The value of `key`, if the key is there.
    pub fn get(&self, key: &str) -> (value: Option<&JsonValue>)
        ensures
            match value {
                Some(v) => lookup(self@, key@) == Some(v@),
                None => lookup(self@, key@) is None,
            },
    {
        let wanted = key.to_owned();
        match self.position(&wanted) {
            Some(i) => {
                proof {
                    lemma_first_index(self@, key@, i as int);
                }
                Some(&self.entries[i].1)
            },
            None => None,
        }
    }

    /// The key of the field at position `i`, if there is such a field.
    pub fn key_at(&self, i: usize) -> (key: Option<&String>)
        ensures
            match key {
                Some(k) => i < self@.len() && k@ == self@[i as int].0,
                None => i >= self@.len(),
            },
    {
        if i < self.entries.len() {
            Some(&self.entries[i].0)
        } else {
            None
        }
    }

    /// The value of the field at position `i`, if there is such a field.
    pub fn value_at(&self, i: usize) -> (value: Option<&JsonValue>)
        ensures
            match value {
                Some(v) => i < self@.len() && v@ == self@[i as int].1,
                None => i >= self@.len(),
            },
    {
        if i < self.entries.len() {
            Some(&self.entries[i].1)
        } else {
            None
        }
    }
}

impl JsonValue {
    /// A second value with the same contents.
    pub fn duplicate(&self) -> (copy: JsonValue)
        ensures
            copy@ == self@,
        decreases self,
    {
        match self {
            JsonValue::Primitive(JsonPrimitive::String(s)) => JsonValue::Primitive(
                JsonPrimitive::String(s.clone()),
            ),
            JsonValue::Primitive(JsonPrimitive::Number(n)) => JsonValue::Primitive(
                JsonPrimitive::Number(*n),
            ),
            JsonValue::Object(object) => {
                proof {
                    use_type_invariant(object);
                }
                let mut entries: Vec<(String, JsonValue)> = Vec::new();
                let mut i: usize = 0;
                while i < object.entries.len()
                    invariant
                        i <= object.entries.len(),
                        self == JsonValue::Object(*object),
                        entries_model(entries) == object@.take(i as int),
                    decreases object.entries.len() - i,
                {
                    assert(self->Object_0 == *object);
                    assert(decreases_to!(object.entries => object.entries[i as int]));
                    let value = object.entries[i].1.duplicate();
                    let key = object.entries[i].0.clone();
                    let ghost copied = entries_model(entries);
                    entries.push((key, value));
                    assert(entries_model(entries) == copied.push((key@, value@)));
                    assert(object@[i as int] == (key@, value@));
                    assert(object@.take(i + 1) == object@.take(i as int).push(object@[i as int]));
                    i += 1;
                }
                assert(object@.take(i as int) == object@);
                JsonValue::Object(JsonObject { entries })
            },
            JsonValue::Array(items) => {
                let mut copies: Vec<JsonValue> = Vec::new();
                let mut i: usize = 0;
                while i < items.len()
                    invariant
                        i <= items.len(),
                        self == JsonValue::Array(*items),
                        array_model(copies) == array_model(*items).take(i as int),
                    decreases items.len() - i,
                {
                    assert(self->Array_0 == *items);
                    let value = items[i].duplicate();
                    let ghost copied = array_model(copies);
                    copies.push(value);
                    assert(array_model(copies) == copied.push(value@));
                    assert(array_model(*items)[i as int] == value@);
                    assert(array_model(*items).take(i + 1) == array_model(*items).take(
                        i as int,
                    ).push(array_model(*items)[i as int]));
                    i += 1;
                }
                assert(array_model(*items).take(i as int) == array_model(*items));
                JsonValue::Array(copies)
            },
        }
    }
}

/// The three stacks of the parser between two tokens.
pub struct ParseState {
    /// What is expected at each open level, innermost last.
    pub states: Seq<StateItem>,
    /// The container under construction at each open level, innermost last;
    /// the finished root once nothing is open.
    pub values: Seq<JsonModel>,
    /// The keys whose value has not come yet, innermost last.
    pub keys: Seq<Seq<char>>,
}

impl ParseState {
    /// The parser before the first token: one value is expected.
    pub open spec fn start() -> ParseState {
        ParseState {
            states: seq![StateItem::ExpectingValue],
            values: Seq::empty(),
            keys: Seq::empty(),
        }
    }

    /// The state on top of the state stack, if the stack is not empty.
    pub open spec fn current(self) -> Option<StateItem> {
        if self.states.len() > 0 {
            Some(self.states.last())
        } else {
            None
        }
    }

    /// A value may start here.
    pub open spec fn expects_value(self) -> bool {
        self.current() == Some(StateItem::ExpectingValue) || self.current() == Some(
            StateItem::ExpectingValueInObject,
        ) || self.current() == Some(StateItem::ExpectingValueInArray)
    }

    /// The state stack with its top replaced by `with`.
    pub open spec fn replace_top(self, with: Seq<StateItem>) -> ParseState {
        ParseState { states: self.states.drop_last() + with, ..self }
    }

    /// A finished value joins the container on top of the value stack: an
    /// array takes it at its end, an object takes it under the key on top of
    /// the key stack, which is popped. Where there is no container, or an
    /// object has no key waiting, the value is dropped.
    pub open spec fn attach(self, child: JsonModel) -> ParseState {
        if self.values.len() == 0 {
            self
        } else {
            match self.values.last() {
                JsonModel::Array(items) => ParseState {
                    values: self.values.drop_last().push(JsonModel::Array(items.push(child))),
                    ..self
                },
                JsonModel::Object(entries) => if self.keys.len() > 0 {
                    ParseState {
                        values: self.values.drop_last().push(
                            JsonModel::Object(insert_entry(entries, self.keys.last(), child)),
                        ),
                        keys: self.keys.drop_last(),
                        ..self
                    }
                } else {
                    self
                },
                _ => self,
            }
        }
    }

    /// A closing delimiter: two states are popped, and the container on top
    /// of the value stack is folded into the one below it. With nothing
    /// below, it stays as the root.
    pub open spec fn close(self) -> ParseState {
        let popped = ParseState {
            states: if self.states.len() >= 2 {
                self.states.take(self.states.len() - 2)
            } else {
                Seq::empty()
            },
            ..self
        };
        if self.values.len() <= 1 {
            popped
        } else {
            (ParseState { values: self.values.drop_last(), ..popped }).attach(self.values.last())
        }
    }
}

/// One token of input. A token that the current state has no use for is
/// dropped, and so is every token once the state stack is empty.
pub open spec fn parse_step(st: ParseState, token: TokenView) -> ParseState {
    match token {
        TokenView::OpenBrace => if st.expects_value() {
            ParseState {
                values: st.values.push(JsonModel::Object(Seq::empty())),
                ..st.replace_top(seq![StateItem::InObject, StateItem::ExpectingKey])
            }
        } else {
            st
        },
        TokenView::OpenBracket => if st.current() == Some(StateItem::ExpectingValue)
            || st.current() == Some(StateItem::ExpectingValueInObject) {
            ParseState {
                values: st.values.push(JsonModel::Array(Seq::empty())),
                ..st.replace_top(
                    seq![
                        StateItem::InArray,
                        StateItem::ExpectingCommaOrEndArray,
                        StateItem::ExpectingValueInArray,
                    ],
                )
            }
        } else {
            st
        },
        TokenView::StringContent(s) => if st.current() == Some(StateItem::ExpectingKey) {
            ParseState { keys: st.keys.push(s), ..st.replace_top(seq![StateItem::ExpectingColon]) }
        } else if st.current() == Some(StateItem::ExpectingValueInObject) || st.current() == Some(
            StateItem::ExpectingValueInArray,
        ) {
            st.replace_top(Seq::empty()).attach(JsonModel::String(s))
        } else {
            st
        },
        TokenView::Number(n) => if st.current() == Some(StateItem::ExpectingValueInObject) {
            st.replace_top(Seq::empty()).attach(JsonModel::Number(n))
        } else {
            st
        },
        TokenView::Colon => if st.current() == Some(StateItem::ExpectingColon) {
            st.replace_top(
                seq![StateItem::ExpectingCommaOrEndObject, StateItem::ExpectingValueInObject],
            )
        } else {
            st
        },
        TokenView::Comma => if st.current() == Some(StateItem::ExpectingCommaOrEndObject) {
            st.replace_top(seq![StateItem::ExpectingKey])
        } else if st.current() == Some(StateItem::ExpectingCommaOrEndArray) {
            st.replace_top(
                seq![StateItem::ExpectingCommaOrEndArray, StateItem::ExpectingValueInArray],
            )
        } else {
            st
        },
        TokenView::CloseBrace => if st.current() == Some(StateItem::ExpectingCommaOrEndObject) {
            st.close()
        } else {
            st
        },
        TokenView::CloseBracket => if st.current() == Some(StateItem::ExpectingCommaOrEndArray) {
            st.close()
        } else {
            st
        },
    }
}

/// The parser after `tokens`, started in `st`.
pub open spec fn parse_from(st: ParseState, tokens: Seq<TokenView>) -> ParseState
    decreases tokens.len(),
{
    if tokens.len() == 0 {
        st
    } else {
        parse_step(parse_from(st, tokens.drop_last()), tokens.last())
    }
}

/// What a parse ends in: the root, where the state stack is empty and the
/// value stack holds one value, and nothing otherwise.
pub open spec fn outcome(st: ParseState) -> Option<JsonModel> {
    if st.states.len() == 0 && st.values.len() == 1 {
        Some(st.values[0])
    } else {
        None
    }
}

/// The root value of a sequence of tokens, or `None` where the tokens do not
/// reduce to one root.
pub open spec fn parse(tokens: Seq<TokenView>) -> Option<JsonModel> {
    outcome(parse_from(ParseState::start(), tokens))
}

/// The values that a stack of containers stands for.
pub open spec fn value_models(values: Seq<JsonValue>) -> Seq<JsonModel> {
    values.map_values(|v: JsonValue| v@)
}

/// The characters of a stack of keys.
pub open spec fn key_views(keys: Seq<String>) -> Seq<Seq<char>> {
    keys.map_values(|k: String| k@)
}

/// The value of an optional root.
pub open spec fn root_model(root: Option<JsonValue>) -> Option<JsonModel> {
    match root {
        Some(v) => Some(v@),
        None => None,
    }
}

/// The parser's working state: the state stack, the value stack and the
/// key stack.
pub struct Parser {
    state_stack: Vec<StateItem>,
    parser_stack: Vec<JsonValue>,
    key_stack: Vec<String>,
}

impl View for Parser {
    type V = ParseState;

    closed spec fn view(&self) -> ParseState {
        ParseState {
            states: self.state_stack@,
            values: value_models(self.parser_stack@),
            keys: key_views(self.key_stack@),
        }
    }
}

impl Parser {
    /// A parser that has seen no token.
    pub fn new() -> (parser: Parser)
        ensures
            parser@ == ParseState::start(),
    {
        let mut state_stack: Vec<StateItem> = Vec::new();
        state_stack.push(StateItem::ExpectingValue);
        let parser = Parser { state_stack, parser_stack: Vec::new(), key_stack: Vec::new() };
        assert(parser@.states == seq![StateItem::ExpectingValue]);
        assert(parser@.values == Seq::<JsonModel>::empty());
        assert(parser@.keys == Seq::<Seq<char>>::empty());
        parser
    }

    /// The state on top of the state stack.
    fn current(&self) -> (state: Option<StateItem>)
        ensures
            state == self@.current(),
    {
        let n = self.state_stack.len();
        if n > 0 {
            Some(self.state_stack[n - 1])
        } else {
            None
        }
    }

    /// Replaces the top of the state stack, which is not empty.
    fn replace_top(
        &mut self,
        first: Option<StateItem>,
        second: Option<StateItem>,
        third: Option<StateItem>,
    )
        requires
            old(self)@.states.len() > 0,
            second is Some ==> first is Some,
            third is Some ==> second is Some,
        ensures
            final(self)@ == old(self)@.replace_top(
                match (first, second, third) {
                    (Some(a), Some(b), Some(c)) => seq![a, b, c],
                    (Some(a), Some(b), _) => seq![a, b],
                    (Some(a), _, _) => seq![a],
                    _ => Seq::empty(),
                },
            ),
    {
        self.state_stack.pop();
        if let Some(a) = first {
            self.state_stack.push(a);
        }
        if let Some(b) = second {
            self.state_stack.push(b);
        }
        if let Some(c) = third {
            self.state_stack.push(c);
        }
        assert(self@.states == old(self)@.states.drop_last() + (match (first, second, third) {
            (Some(a), Some(b), Some(c)) => seq![a, b, c],
            (Some(a), Some(b), _) => seq![a, b],
            (Some(a), _, _) => seq![a],
            _ => Seq::empty(),
        }));
    }

    /// Opens a container.
    fn open(&mut self, container: JsonValue)
        ensures
            final(self)@ == (ParseState {
                values: old(self)@.values.push(container@),
                ..old(self)@
            }),
    {
        self.parser_stack.push(container);
        assert(self@.values == old(self)@.values.push(container@));
    }

    /// Hands a finished value to the container on top of the value stack.
    fn attach(&mut self, child: JsonValue)
        ensures
            final(self)@ == old(self)@.attach(child@),
    {
        let ghost before = self@;
        match self.parser_stack.pop() {
            None => {
                assert(self@ == before);
            },
            Some(JsonValue::Array(items)) => {
                let mut items = items;
                let ghost below = self.parser_stack@;
                assert(value_models(below) == before.values.drop_last());
                assert(before.values.last() == JsonModel::Array(array_model(items)));
                let ghost old_items = array_model(items);
                items.push(child);
                assert(array_model(items) == old_items.push(child@));
                self.parser_stack.push(JsonValue::Array(items));
                assert(self@.values == before.values.drop_last().push(
                    JsonModel::Array(old_items.push(child@)),
                ));
            },
            Some(JsonValue::Object(object)) => {
                let mut object = object;
                let ghost below = self.parser_stack@;
                assert(value_models(below) == before.values.drop_last());
                assert(before.values.last() == JsonModel::Object(object@));
                let ghost old_entries = object@;
                match self.key_stack.pop() {
                    Some(key) => {
                        assert(key@ == before.keys.last());
                        assert(self@.keys == before.keys.drop_last());
                        object.insert(key, child);
                        self.parser_stack.push(JsonValue::Object(object));
                        assert(self@.values == before.values.drop_last().push(
                            JsonModel::Object(
                                insert_entry(old_entries, before.keys.last(), child@),
                            ),
                        ));
                    },
                    None => {
                        self.parser_stack.push(JsonValue::Object(object));
                        assert(self@.values == before.values);
                        assert(self@.keys == before.keys);
                    },
                }
            },
            Some(other) => {
                let ghost below = self.parser_stack@;
                assert(before.values.last() == other@);
                self.parser_stack.push(other);
                assert(self.parser_stack@ == below.push(other));
                assert(self@.values == before.values);
            },
        }
    }

    /// Takes two states off the state stack and folds the container on top
    /// of the value stack into the one below it.
    fn close(&mut self)
        ensures
            final(self)@ == old(self)@.close(),
    {
        let ghost before = self@;
        self.state_stack.pop();
        self.state_stack.pop();
        assert(self@.states == before.close().states);
        if self.parser_stack.len() > 1 {
            match self.parser_stack.pop() {
                Some(finished) => {
                    assert(finished@ == before.values.last());
                    assert(self@.values == before.values.drop_last());
                    self.attach(finished);
                },
                None => {},
            }
        }
    }

    /// Takes in one token.
    pub fn feed(&mut self, token: &Token)
        ensures
            final(self)@ == parse_step(old(self)@, token@),
    {
        let current = match self.current() {
            Some(state) => state,
            None => { return ; },
        };
        match token {
            Token::OpenBrace => match current {
                StateItem::ExpectingValue
                | StateItem::ExpectingValueInObject
                | StateItem::ExpectingValueInArray => {
                    self.replace_top(
                        Some(StateItem::InObject),
                        Some(StateItem::ExpectingKey),
                        None,
                    );
                    self.open(JsonValue::Object(JsonObject::new()));
                },
                _ => {},
            },
            Token::OpenBracket => match current {
                StateItem::ExpectingValue | StateItem::ExpectingValueInObject => {
                    self.replace_top(
                        Some(StateItem::InArray),
                        Some(StateItem::ExpectingCommaOrEndArray),
                        Some(StateItem::ExpectingValueInArray),
                    );
                    let items: Vec<JsonValue> = Vec::new();
                    assert(array_model(items) == Seq::<JsonModel>::empty());
                    self.open(JsonValue::Array(items));
                },
                _ => {},
            },
            Token::StringContent(s) => match current {
                StateItem::ExpectingKey => {
                    self.replace_top(Some(StateItem::ExpectingColon), None, None);
                    self.key_stack.push(s.clone());
                    assert(self@.keys == old(self)@.keys.push(s@));
                },
                StateItem::ExpectingValueInObject | StateItem::ExpectingValueInArray => {
                    self.replace_top(None, None, None);
                    self.attach(JsonValue::Primitive(JsonPrimitive::String(s.clone())));
                },
                _ => {},
            },
            Token::Number(n) => match current {
                StateItem::ExpectingValueInObject => {
                    self.replace_top(None, None, None);
                    self.attach(JsonValue::Primitive(JsonPrimitive::Number(*n)));
                },
                _ => {},
            },
            Token::Colon => match current {
                StateItem::ExpectingColon => {
                    self.replace_top(
                        Some(StateItem::ExpectingCommaOrEndObject),
                        Some(StateItem::ExpectingValueInObject),
                        None,
                    );
                },
                _ => {},
            },
            Token::Comma => match current {
                StateItem::ExpectingCommaOrEndObject => {
                    self.replace_top(Some(StateItem::ExpectingKey), None, None);
                },
                StateItem::ExpectingCommaOrEndArray => {
                    self.replace_top(
                        Some(StateItem::ExpectingCommaOrEndArray),
                        Some(StateItem::ExpectingValueInArray),
                        None,
                    );
                },
                _ => {},
            },
            Token::CloseBrace => match current {
                StateItem::ExpectingCommaOrEndObject => {
                    self.close();
                },
                _ => {},
            },
            Token::CloseBracket => match current {
                StateItem::ExpectingCommaOrEndArray => {
                    self.close();
                },
                _ => {},
            },
        }
    }

    /// The height of the state stack.
    pub fn state_stack_len(&self) -> (n: usize)
        ensures
            n == self@.states.len(),
    {
        self.state_stack.len()
    }

    /// The height of the value stack.
    pub fn value_stack_len(&self) -> (n: usize)
        ensures
            n == self@.values.len(),
    {
        self.parser_stack.len()
    }

    /// The height of the key stack.
    pub fn key_stack_len(&self) -> (n: usize)
        ensures
            n == self@.keys.len(),
    {
        self.key_stack.len()
    }

    /// Ends the parse: the root, where the tokens reduced to one.
    pub fn finish(self) -> (root: Option<JsonValue>)
        ensures
            root_model(root) == outcome(self@),
    {
        let mut parser = self;
        if parser.state_stack.len() == 0 && parser.parser_stack.len() == 1 {
            parser.parser_stack.pop()
        } else {
            None
        }
    }
}

/// One more token is one more step.
pub proof fn lemma_parse_from_push(st: ParseState, tokens: Seq<TokenView>, token: TokenView)
    ensures
        parse_from(st, tokens.push(token)) == parse_step(parse_from(st, tokens), token),
{
    assert(tokens.push(token).drop_last() == tokens);
}

/// Parses a sequence of tokens into its root value.
///
/// The tokens drive a pushdown automaton over three stacks; no call nests
/// with the document, so its depth is bounded by memory alone. A token that
/// the current state has no use for is dropped without an error. The
/// result is the root exactly when the tokens reduce to a single value and
/// leave nothing open.
pub fn parse_tokens(tokens: &[Token]) -> (root: Option<JsonValue>)
    ensures
        root_model(root) == parse(token_views(tokens@)),
{
    let mut parser = Parser::new();
    let mut i: usize = 0;
    assert(token_views(tokens@).take(0) == Seq::<TokenView>::empty());
    while i < tokens.len()
        invariant
            i <= tokens.len(),
            parser@ == parse_from(ParseState::start(), token_views(tokens@).take(i as int)),
        decreases tokens.len() - i,
    {
        proof {
            let views = token_views(tokens@);
            assert(views.take(i + 1) == views.take(i as int).push(tokens[i as int]@));
            lemma_parse_from_push(ParseState::start(), views.take(i as int), tokens[i as int]@);
        }
        parser.feed(&tokens[i]);
        i += 1;
    }
    assert(token_views(tokens@).take(i as int) == token_views(tokens@));
    parser.finish()
}

/// A string between quotes, its characters as they are.
pub open spec fn quoted(s: Seq<char>) -> Seq<char> {
    seq!['"'] + s + seq!['"']
}

/// The parts with a comma between each two.
pub open spec fn join(parts: Seq<Seq<char>>) -> Seq<char>
    decreases parts.len(),
{
    if parts.len() == 0 {
        Seq::empty()
    } else if parts.len() == 1 {
        parts[0]
    } else {
        join(parts.drop_last()) + seq![','] + parts.last()
    }
}

/// The compact text of a value: no space, no escaping; the fields of an
/// object and the elements of an array in their order.
pub open spec fn json_text(v: JsonModel, ren: Rendering) -> Seq<char>
    decreases v, 0int,
{
    match v {
        JsonModel::String(s) => quoted(s),
        JsonModel::Number(n) => ren(n),
        JsonModel::Object(entries) => seq!['{'] + join(entry_texts(entries, ren)) + seq!['}'],
        JsonModel::Array(items) => seq!['['] + join(item_texts(items, ren)) + seq![']'],
    }
}

/// The text of each field: the key between quotes, a colon, the value.
pub open spec fn entry_texts(entries: Entries, ren: Rendering) -> Seq<Seq<char>>
    decreases entries, 1int,
{
    Seq::new(
        entries.len(),
        |i: int|
            if 0 <= i < entries.len() {
                quoted(entries[i].0) + seq![':'] + json_text(entries[i].1, ren)
            } else {
                Seq::empty()
            },
    )
}

/// The text of each element.
pub open spec fn item_texts(items: Seq<JsonModel>, ren: Rendering) -> Seq<Seq<char>>
    decreases items, 1int,
{
    Seq::new(
        items.len(),
        |i: int|
            if 0 <= i < items.len() {
                json_text(items[i], ren)
            } else {
                Seq::empty()
            },
    )
}

/// Joining one more part.
pub proof fn lemma_join_take(parts: Seq<Seq<char>>, i: int)
    requires
        0 <= i < parts.len(),
    ensures
        join(parts.take(i + 1)) == if i == 0 {
            parts[i]
        } else {
            join(parts.take(i)) + seq![','] + parts[i]
        },
{
    assert(parts.take(i + 1).drop_last() == parts.take(i));
}

/// Appends a string between quotes.
fn push_quoted(output: &mut String, s: &String)
    ensures
        final(output)@ == old(output)@ + quoted(s@),
{
    output.push('"');
    output.append(s.as_str());
    output.push('"');
    assert(output@ == old(output)@ + quoted(s@));
}

/// Serializes a value to compact text.
///
/// `render` turns the bit pattern of a number into its text. For every
/// function that `render` behaves as, the text is that of [`json_text`].
pub fn format_json<R: Fn(u64) -> String>(json: &JsonValue, render: &R) -> (output: String)
    requires
        forall|n: u64| call_requires(*render, (n,)),
    ensures
        forall|ren: Rendering| #[trigger]
            renders_as(render, ren) ==> output@ == json_text(json@, ren),
    decreases json,
{
    match json {
        JsonValue::Primitive(JsonPrimitive::String(s)) => {
            let mut output = String::new();
            push_quoted(&mut output, s);
            assert(output@ == quoted(s@));
            output
        },
        JsonValue::Primitive(JsonPrimitive::Number(n)) => render(*n),
        JsonValue::Object(object) => {
            let mut output = String::new();
            output.push('{');
            let mut i: usize = 0;
            while i < object.entries.len()
                invariant
                    i <= object.entries.len(),
                    json == JsonValue::Object(*object),
                    forall|n: u64| call_requires(*render, (n,)),
                    forall|ren: Rendering| #[trigger]
                        renders_as(render, ren) ==> output@ == seq!['{'] + join(
                            entry_texts(object@, ren).take(i as int),
                        ),
                decreases object.entries.len() - i,
            {
                let ghost before = output@;
                if i != 0 {
                    output.push(',');
                }
                push_quoted(&mut output, &object.entries[i].0);
                output.push(':');
                assert(json->Object_0 == *object);
                assert(decreases_to!(object.entries => object.entries[i as int]));
                let text = format_json(&object.entries[i].1, render);
                output.append(text.as_str());
                proof {
                    assert forall|ren: Rendering| #[trigger] renders_as(render, ren) implies output@
                        == seq!['{'] + join(entry_texts(object@, ren).take(i + 1)) by {
                        let parts = entry_texts(object@, ren);
                        lemma_join_take(parts, i as int);
                        assert(parts[i as int] == quoted(object@[i as int].0) + seq![':']
                            + json_text(object@[i as int].1, ren));
                        assert(text@ == json_text(object@[i as int].1, ren));
                        if i == 0 {
                            assert(before == seq!['{']) by {
                                assert(join(parts.take(0)) == Seq::<char>::empty());
                            }
                            assert(output@ == seq!['{'] + parts[i as int]);
                        } else {
                            assert(output@ == (before + seq![',']) + parts[i as int]);
                            assert(output@ == seq!['{'] + (join(parts.take(i as int)) + seq![',']
                                + parts[i as int]));
                        }
                    }
                }
                i += 1;
            }
            output.push('}');
            proof {
                assert forall|ren: Rendering| #[trigger] renders_as(render, ren) implies output@
                    == json_text(json@, ren) by {
                    let parts = entry_texts(object@, ren);
                    assert(parts.take(i as int) == parts);
                }
            }
            output
        },
        JsonValue::Array(items) => {
            let mut output = String::new();
            output.push('[');
            let mut i: usize = 0;
            while i < items.len()
                invariant
                    i <= items.len(),
                    json == JsonValue::Array(*items),
                    forall|n: u64| call_requires(*render, (n,)),
                    forall|ren: Rendering| #[trigger]
                        renders_as(render, ren) ==> output@ == seq!['['] + join(
                            item_texts(array_model(*items), ren).take(i as int),
                        ),
                decreases items.len() - i,
            {
                let ghost before = output@;
                if i != 0 {
                    output.push(',');
                }
                assert(decreases_to!(*items => items[i as int]));
                assert(json->Array_0 == *items);
                let text = format_json(&items[i], render);
                output.append(text.as_str());
                proof {
                    assert forall|ren: Rendering| #[trigger] renders_as(render, ren) implies output@
                        == seq!['['] + join(item_texts(array_model(*items), ren).take(i + 1)) by {
                        let parts = item_texts(array_model(*items), ren);
                        lemma_join_take(parts, i as int);
                        assert(text@ == parts[i as int]);
                        if i == 0 {
                            assert(before == seq!['[']) by {
                                assert(join(parts.take(0)) == Seq::<char>::empty());
                            }
                            assert(output@ == seq!['['] + parts[i as int]);
                        } else {
                            assert(output@ == (before + seq![',']) + parts[i as int]);
                            assert(output@ == seq!['['] + (join(parts.take(i as int)) + seq![',']
                                + parts[i as int]));
                        }
                    }
                }
                i += 1;
            }
            output.push(']');
            proof {
                assert forall|ren: Rendering| #[trigger] renders_as(render, ren) implies output@
                    == json_text(json@, ren) by {
                    let parts = item_texts(array_model(*items), ren);
                    assert(parts.take(i as int) == parts);
                }
            }
            output
        },
    }
}

} // verus!
