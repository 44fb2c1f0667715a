use vstd::prelude::*;
use crate::document::{
    Lexeme, all_ok, bytes_of, bytes_prefix, is_gap, latin1, lemma_latin1_concat,
    lemma_latin1_injective, lemma_lexemes_concat, lemma_spell_no_gaps, lemma_tokenize_spell,
    lexeme_ok, no_gaps, numbers_end, spell, tokens_of, tokens_prefix,
};
use crate::lexer::{
    Decoding, Rendering, TokenView, structural_token, tokenize, CLOSE_BRACE, CLOSE_BRACKET, COLON,
    COMMA, OPEN_BRACE, OPEN_BRACKET, QUOTE,
};
use crate::pairs::{
    Field, Pair, SchemaError, coordinate_pairs_of, key_pairs, key_x0, key_x1, key_y0, key_y1,
    number_field, pair_of, pairs_of,
};
use crate::parser::{
    Entries, JsonModel, ParseState, StateItem, entry_texts, has_key, insert_entry,
    is_first_index, item_texts, join, json_text, lemma_first_index, lemma_join_take, outcome,
    parse, parse_from, parse_step, quoted,
};

verus! {

/// The tokens of a field that holds a number: the key, a colon, the number.
pub open spec fn field_tokens(key: Seq<char>, n: u64) -> Seq<TokenView> {
    seq![TokenView::StringContent(key), TokenView::Colon, TokenView::Number(n)]
}

/// The tokens of one pair: an object with the fields `x0`, `y0`, `x1` and
/// `y1`, in this order.
pub open spec fn pair_tokens(pair: Pair) -> Seq<TokenView> {
    seq![TokenView::OpenBrace] + field_tokens(key_x0(), pair.x0) + seq![TokenView::Comma]
        + field_tokens(key_y0(), pair.y0) + seq![TokenView::Comma] + field_tokens(
        key_x1(),
        pair.x1,
    ) + seq![TokenView::Comma] + field_tokens(key_y1(), pair.y1) + seq![TokenView::CloseBrace]
}

/// The tokens of the first `k` pairs, with a comma between each two.
pub open spec fn pairs_tokens(pairs: Seq<Pair>, k: int) -> Seq<TokenView>
    decreases k,
{
    if k <= 0 {
        Seq::empty()
    } else if k == 1 {
        pair_tokens(pairs[0])
    } else {
        pairs_tokens(pairs, k - 1) + seq![TokenView::Comma] + pair_tokens(pairs[k - 1])
    }
}

/// The tokens that open a coordinate-pair document: `{`, the key `pairs`,
/// `:` and `[`.
pub open spec fn opening_tokens() -> Seq<TokenView> {
    seq![
        TokenView::OpenBrace,
        TokenView::StringContent(key_pairs()),
        TokenView::Colon,
        TokenView::OpenBracket,
    ]
}

/// The tokens of a coordinate-pair document: an object whose field `pairs`
/// is the array of the pairs.
pub open spec fn document_tokens(pairs: Seq<Pair>) -> Seq<TokenView> {
    opening_tokens() + pairs_tokens(pairs, pairs.len() as int) + seq![
        TokenView::CloseBracket,
        TokenView::CloseBrace,
    ]
}

/// The object that stands for one pair.
pub open spec fn pair_tree(pair: Pair) -> JsonModel {
    JsonModel::Object(
        seq![
            (key_x0(), JsonModel::Number(pair.x0)),
            (key_y0(), JsonModel::Number(pair.y0)),
            (key_x1(), JsonModel::Number(pair.x1)),
            (key_y1(), JsonModel::Number(pair.y1)),
        ],
    )
}

/// The objects that stand for the first `k` pairs.
pub open spec fn pair_trees(pairs: Seq<Pair>, k: int) -> Seq<JsonModel> {
    Seq::new(k as nat, |i: int| pair_tree(pairs[i]))
}

/// The tree of a coordinate-pair document.
pub open spec fn document_tree(pairs: Seq<Pair>) -> JsonModel {
    JsonModel::Object(
        seq![(key_pairs(), JsonModel::Array(pair_trees(pairs, pairs.len() as int)))],
    )
}

/// Parsing two runs of tokens one after the other is parsing their
/// concatenation.
pub proof fn lemma_parse_from_concat(st: ParseState, a: Seq<TokenView>, b: Seq<TokenView>)
    ensures
        parse_from(st, a + b) == parse_from(parse_from(st, a), b),
    decreases b.len(),
{
    if b.len() == 0 {
        assert(a + b == a);
    } else {
        assert((a + b).drop_last() == a + b.drop_last());
        lemma_parse_from_concat(st, a, b.drop_last());
    }
}

/// One token is one step.
pub proof fn lemma_parse_from_one(st: ParseState, token: TokenView)
    ensures
        parse_from(st, seq![token]) == parse_step(st, token),
{
    assert(seq![token].drop_last() == Seq::<TokenView>::empty());
    assert(parse_from(st, seq![token].drop_last()) == st);
}

/// Where a key is expected in an object that lacks `key`, the tokens of a
/// number field add the field at the end of the object and leave the parser
/// waiting for a comma or the end of the object.
pub proof fn lemma_parse_field(st: ParseState, entries: Entries, key: Seq<char>, n: u64)
    requires
        st.current() == Some(StateItem::ExpectingKey),
        st.values.len() > 0,
        st.values.last() == JsonModel::Object(entries),
        !has_key(entries, key),
    ensures
        parse_from(st, field_tokens(key, n)) == (ParseState {
            states: st.states.drop_last().push(StateItem::ExpectingCommaOrEndObject),
            values: st.values.drop_last().push(
                JsonModel::Object(entries.push((key, JsonModel::Number(n)))),
            ),
            keys: st.keys,
        }),
{
    let t1 = TokenView::StringContent(key);
    let t2 = TokenView::Colon;
    let t3 = TokenView::Number(n);
    let s1 = parse_step(st, t1);
    let s2 = parse_step(s1, t2);
    let s3 = parse_step(s2, t3);
    assert(field_tokens(key, n) == seq![t1] + seq![t2] + seq![t3]);
    lemma_parse_from_concat(st, seq![t1] + seq![t2], seq![t3]);
    lemma_parse_from_concat(st, seq![t1], seq![t2]);
    lemma_parse_from_one(st, t1);
    lemma_parse_from_one(s1, t2);
    lemma_parse_from_one(s2, t3);
    assert(parse_from(st, field_tokens(key, n)) == s3);

    let base = st.states.drop_last();
    assert(s1.states == base.push(StateItem::ExpectingColon));
    assert(s1.keys == st.keys.push(key));
    assert(s1.values == st.values);
    assert(s1.states.drop_last() == base);
    assert(s2.states == base.push(StateItem::ExpectingCommaOrEndObject).push(
        StateItem::ExpectingValueInObject,
    ));
    assert(s2.keys == s1.keys);
    assert(s2.values == st.values);
    assert(s2.states.drop_last() == base.push(StateItem::ExpectingCommaOrEndObject));
    let popped = s2.replace_top(Seq::empty());
    assert(popped.states == base.push(StateItem::ExpectingCommaOrEndObject));
    assert(popped.keys.last() == key);
    assert(popped.keys.drop_last() == st.keys);
    assert(insert_entry(entries, key, JsonModel::Number(n)) == entries.push(
        (key, JsonModel::Number(n)),
    ));
    assert(s3 == popped.attach(JsonModel::Number(n)));
}

/// A comma after a field leaves the parser waiting for the next key.
proof fn lemma_parse_field_comma(st: ParseState)
    requires
        st.current() == Some(StateItem::ExpectingCommaOrEndObject),
    ensures
        parse_from(st, seq![TokenView::Comma]) == (ParseState {
            states: st.states.drop_last().push(StateItem::ExpectingKey),
            ..st
        }),
{
    lemma_parse_from_one(st, TokenView::Comma);
    assert(st.states.drop_last() + seq![StateItem::ExpectingKey] == st.states.drop_last().push(
        StateItem::ExpectingKey,
    ));
}

/// The four keys of a pair differ from each other.
pub proof fn lemma_pair_keys_differ()
    ensures
        key_x0() != key_y0(),
        key_x0() != key_x1(),
        key_x0() != key_y1(),
        key_y0() != key_x1(),
        key_y0() != key_y1(),
        key_x1() != key_y1(),
{
    assert(key_x0()[0] != key_y0()[0]);
    assert(key_x0()[1] != key_x1()[1]);
    assert(key_x0()[0] != key_y1()[0]);
    assert(key_y0()[0] != key_x1()[0]);
    assert(key_y0()[1] != key_y1()[1]);
    assert(key_x1()[0] != key_y1()[0]);
}

/// Where an element of an array is expected, the tokens of a pair add the
/// pair's object at the end of the array and leave the parser waiting for a
/// comma or the end of the array.
pub proof fn lemma_parse_pair(st: ParseState, items: Seq<JsonModel>, pair: Pair)
    requires
        st.current() == Some(StateItem::ExpectingValueInArray),
        st.values.len() > 0,
        st.values.last() == JsonModel::Array(items),
    ensures
        parse_from(st, pair_tokens(pair)) == (ParseState {
            states: st.states.drop_last(),
            values: st.values.drop_last().push(JsonModel::Array(items.push(pair_tree(pair)))),
            keys: st.keys,
        }),
{
    lemma_pair_keys_differ();
    let base = st.states.drop_last();
    let inside = base.push(StateItem::InObject);
    let comma = seq![TokenView::Comma];
    let f0 = field_tokens(key_x0(), pair.x0);
    let f1 = field_tokens(key_y0(), pair.y0);
    let f2 = field_tokens(key_x1(), pair.x1);
    let f3 = field_tokens(key_y1(), pair.y1);
    let e0: Entries = Seq::empty();
    let e1 = e0.push((key_x0(), JsonModel::Number(pair.x0)));
    let e2 = e1.push((key_y0(), JsonModel::Number(pair.y0)));
    let e3 = e2.push((key_x1(), JsonModel::Number(pair.x1)));
    let e4 = e3.push((key_y1(), JsonModel::Number(pair.y1)));
    assert(e4 == seq![
        (key_x0(), JsonModel::Number(pair.x0)),
        (key_y0(), JsonModel::Number(pair.y0)),
        (key_x1(), JsonModel::Number(pair.x1)),
        (key_y1(), JsonModel::Number(pair.y1)),
    ]);

    // `{`
    let s0 = parse_step(st, TokenView::OpenBrace);
    lemma_parse_from_one(st, TokenView::OpenBrace);
    assert(s0.states == inside.push(StateItem::ExpectingKey)) by {
        assert(base + seq![StateItem::InObject, StateItem::ExpectingKey] == inside.push(
            StateItem::ExpectingKey,
        ));
    }
    assert(s0.values == st.values.push(JsonModel::Object(e0)));
    assert(s0.keys == st.keys);
    assert(s0.states.drop_last() == inside);
    assert(s0.values.drop_last() == st.values);

    // `"x0": n`
    let a0 = parse_from(s0, f0);
    lemma_parse_field(s0, e0, key_x0(), pair.x0);
    let c0 = parse_from(a0, comma);
    lemma_parse_field_comma(a0);
    assert(c0.states == inside.push(StateItem::ExpectingKey)) by {
        assert(a0.states.drop_last() == inside);
    }
    assert(c0.values == st.values.push(JsonModel::Object(e1)));
    assert(c0.values.drop_last() == st.values);

    // `"y0": n`
    assert(!has_key(e1, key_y0()));
    let a1 = parse_from(c0, f1);
    lemma_parse_field(c0, e1, key_y0(), pair.y0);
    let c1 = parse_from(a1, comma);
    lemma_parse_field_comma(a1);
    assert(c1.states == inside.push(StateItem::ExpectingKey)) by {
        assert(c0.states.drop_last() == inside);
        assert(a1.states.drop_last() == inside);
    }
    assert(c1.values == st.values.push(JsonModel::Object(e2)));
    assert(c1.values.drop_last() == st.values);

    // `"x1": n`
    assert(!has_key(e2, key_x1()));
    let a2 = parse_from(c1, f2);
    lemma_parse_field(c1, e2, key_x1(), pair.x1);
    let c2 = parse_from(a2, comma);
    lemma_parse_field_comma(a2);
    assert(c2.states == inside.push(StateItem::ExpectingKey)) by {
        assert(c1.states.drop_last() == inside);
        assert(a2.states.drop_last() == inside);
    }
    assert(c2.values == st.values.push(JsonModel::Object(e3)));
    assert(c2.values.drop_last() == st.values);

    // `"y1": n`
    assert(!has_key(e3, key_y1()));
    let a3 = parse_from(c2, f3);
    lemma_parse_field(c2, e3, key_y1(), pair.y1);
    assert(a3.states == inside.push(StateItem::ExpectingCommaOrEndObject)) by {
        assert(c2.states.drop_last() == inside);
    }
    assert(a3.values == st.values.push(JsonModel::Object(e4)));
    assert(a3.keys == st.keys);

    // `}`
    let end = parse_step(a3, TokenView::CloseBrace);
    lemma_parse_from_one(a3, TokenView::CloseBrace);
    assert(a3.states.take(a3.states.len() - 2) == base);
    assert(a3.values.drop_last() == st.values);
    assert(end == (ParseState {
        states: base,
        values: st.values.drop_last().push(JsonModel::Array(items.push(pair_tree(pair)))),
        keys: st.keys,
    }));

    // the tokens in one run
    let open = seq![TokenView::OpenBrace];
    let close = seq![TokenView::CloseBrace];
    let r1 = open + f0;
    let r2 = r1 + comma;
    let r3 = r2 + f1;
    let r4 = r3 + comma;
    let r5 = r4 + f2;
    let r6 = r5 + comma;
    let r7 = r6 + f3;
    assert(pair_tokens(pair) == r7 + close);
    lemma_parse_from_concat(st, open, f0);
    lemma_parse_from_concat(st, r1, comma);
    lemma_parse_from_concat(st, r2, f1);
    lemma_parse_from_concat(st, r3, comma);
    lemma_parse_from_concat(st, r4, f2);
    lemma_parse_from_concat(st, r5, comma);
    lemma_parse_from_concat(st, r6, f3);
    lemma_parse_from_concat(st, r7, close);
}

/// The parser after the opening tokens of a coordinate-pair document.
spec fn opened() -> ParseState {
    ParseState {
        states: seq![
            StateItem::InObject,
            StateItem::ExpectingCommaOrEndObject,
            StateItem::InArray,
            StateItem::ExpectingCommaOrEndArray,
            StateItem::ExpectingValueInArray,
        ],
        values: seq![JsonModel::Object(Seq::empty()), JsonModel::Array(Seq::empty())],
        keys: seq![key_pairs()],
    }
}

/// The parser after the opening tokens and `k` pairs, `k` at least 1.
spec fn filled(pairs: Seq<Pair>, k: int) -> ParseState {
    ParseState {
        states: seq![
            StateItem::InObject,
            StateItem::ExpectingCommaOrEndObject,
            StateItem::InArray,
            StateItem::ExpectingCommaOrEndArray,
        ],
        values: seq![JsonModel::Object(Seq::empty()), JsonModel::Array(pair_trees(pairs, k))],
        keys: seq![key_pairs()],
    }
}

/// The opening tokens leave the parser inside the array of pairs.
proof fn lemma_parse_opening()
    ensures
        parse_from(ParseState::start(), opening_tokens()) == opened(),
{
    let start = ParseState::start();
    let t1 = TokenView::OpenBrace;
    let t2 = TokenView::StringContent(key_pairs());
    let t3 = TokenView::Colon;
    let t4 = TokenView::OpenBracket;
    let s1 = parse_step(start, t1);
    let s2 = parse_step(s1, t2);
    let s3 = parse_step(s2, t3);
    let s4 = parse_step(s3, t4);
    assert(opening_tokens() == seq![t1] + seq![t2] + seq![t3] + seq![t4]);
    lemma_parse_from_concat(start, seq![t1] + seq![t2] + seq![t3], seq![t4]);
    lemma_parse_from_concat(start, seq![t1] + seq![t2], seq![t3]);
    lemma_parse_from_concat(start, seq![t1], seq![t2]);
    lemma_parse_from_one(start, t1);
    lemma_parse_from_one(s1, t2);
    lemma_parse_from_one(s2, t3);
    lemma_parse_from_one(s3, t4);
    assert(s1.states == seq![StateItem::InObject, StateItem::ExpectingKey]);
    assert(s1.values == seq![JsonModel::Object(Seq::empty())]);
    assert(s2.states == seq![StateItem::InObject, StateItem::ExpectingColon]);
    assert(s2.keys == seq![key_pairs()]);
    assert(s3.states == seq![
        StateItem::InObject,
        StateItem::ExpectingCommaOrEndObject,
        StateItem::ExpectingValueInObject,
    ]);
    assert(s4.states == opened().states);
    assert(s4.values == opened().values);
}

/// The opening tokens and `k` pairs leave the parser with the array of
/// their objects.
proof fn lemma_parse_pairs(pairs: Seq<Pair>, k: int)
    requires
        1 <= k <= pairs.len(),
    ensures
        parse_from(opened(), pairs_tokens(pairs, k)) == filled(pairs, k),
    decreases k,
{
    let base = seq![
        StateItem::InObject,
        StateItem::ExpectingCommaOrEndObject,
        StateItem::InArray,
        StateItem::ExpectingCommaOrEndArray,
    ];
    let root = JsonModel::Object(Seq::empty());
    if k == 1 {
        lemma_parse_pair(opened(), Seq::empty(), pairs[0]);
        assert(opened().states.drop_last() == base);
        assert(opened().values.drop_last() == seq![root]);
        assert(Seq::<JsonModel>::empty().push(pair_tree(pairs[0])) == pair_trees(pairs, 1));
        assert(seq![root].push(JsonModel::Array(pair_trees(pairs, 1))) == filled(pairs, 1).values);
    } else {
        lemma_parse_pairs(pairs, k - 1);
        let before = filled(pairs, k - 1);
        let comma = seq![TokenView::Comma];
        let armed = parse_step(before, TokenView::Comma);
        lemma_parse_from_one(before, TokenView::Comma);
        assert(armed.states == base.push(StateItem::ExpectingValueInArray)) by {
            assert(before.states.drop_last() + seq![
                StateItem::ExpectingCommaOrEndArray,
                StateItem::ExpectingValueInArray,
            ] == base.push(StateItem::ExpectingValueInArray));
        }
        lemma_parse_pair(armed, pair_trees(pairs, k - 1), pairs[k - 1]);
        assert(armed.states.drop_last() == base);
        assert(armed.values.drop_last() == seq![root]);
        assert(pair_trees(pairs, k - 1).push(pair_tree(pairs[k - 1])) == pair_trees(pairs, k));
        assert(seq![root].push(JsonModel::Array(pair_trees(pairs, k))) == filled(pairs, k).values);
        lemma_parse_from_concat(opened(), pairs_tokens(pairs, k - 1), comma);
        lemma_parse_from_concat(
            opened(),
            pairs_tokens(pairs, k - 1) + comma,
            pair_tokens(pairs[k - 1]),
        );
    }
}

/// The tokens of a coordinate-pair document with at least one pair parse to
/// the document's tree.
pub proof fn lemma_parse_document(pairs: Seq<Pair>)
    requires
        pairs.len() >= 1,
    ensures
        parse(document_tokens(pairs)) == Some(document_tree(pairs)),
{
    let n = pairs.len() as int;
    let start = ParseState::start();
    lemma_parse_opening();
    lemma_parse_pairs(pairs, n);
    let body = pairs_tokens(pairs, n);
    let t1 = TokenView::CloseBracket;
    let t2 = TokenView::CloseBrace;
    lemma_parse_from_concat(start, opening_tokens(), body);
    let full = filled(pairs, n);
    let s1 = parse_step(full, t1);
    let s2 = parse_step(s1, t2);
    assert(seq![t1, t2] == seq![t1] + seq![t2]);
    lemma_parse_from_concat(full, seq![t1], seq![t2]);
    lemma_parse_from_one(full, t1);
    lemma_parse_from_one(s1, t2);
    lemma_parse_from_concat(start, opening_tokens() + body, seq![t1, t2]);
    assert(parse_from(start, document_tokens(pairs)) == s2);

    let array = JsonModel::Array(pair_trees(pairs, n));
    let empty: Entries = Seq::empty();
    assert(full.states.take(full.states.len() - 2) == seq![
        StateItem::InObject,
        StateItem::ExpectingCommaOrEndObject,
    ]);
    assert(full.values.drop_last() == seq![JsonModel::Object(empty)]);
    assert(!has_key(empty, key_pairs()));
    assert(insert_entry(empty, key_pairs(), array) == seq![(key_pairs(), array)]);
    assert(s1.states == seq![StateItem::InObject, StateItem::ExpectingCommaOrEndObject]);
    assert(s1.values == seq![document_tree(pairs)]) by {
        assert(seq![JsonModel::Object(empty)].drop_last().push(document_tree(pairs)) == seq![
            document_tree(pairs),
        ]);
    }
    assert(s1.states.take(s1.states.len() - 2) == Seq::<StateItem>::empty());
    assert(s2.states.len() == 0);
    assert(s2.values == s1.values);
    assert(outcome(s2) == Some(document_tree(pairs)));
}

/// The coordinate pairs of a document's tree are the document's pairs.
pub proof fn lemma_pairs_of_document(pairs: Seq<Pair>)
    ensures
        coordinate_pairs_of(document_tree(pairs)) == Ok::<Seq<Pair>, SchemaError>(pairs),
{
    let n = pairs.len() as int;
    let items = pair_trees(pairs, n);
    let entries = seq![(key_pairs(), JsonModel::Array(items))];
    assert(is_first_index(entries, key_pairs(), 0));
    lemma_first_index(entries, key_pairs(), 0);
    lemma_pairs_of_trees(pairs, n);
    assert(pairs.take(n) == pairs);
}

/// The object of a pair holds the pair.
proof fn lemma_pair_of_tree(pair: Pair)
    ensures
        pair_tree(pair) matches JsonModel::Object(entries) && pair_of(entries) == Ok::<
            Pair,
            SchemaError,
        >(pair),
{
    lemma_pair_keys_differ();
    let entries = pair_tree(pair)->Object_0;
    assert(is_first_index(entries, key_x0(), 0));
    assert(is_first_index(entries, key_y0(), 1));
    assert(is_first_index(entries, key_x1(), 2));
    assert(is_first_index(entries, key_y1(), 3));
    lemma_first_index(entries, key_x0(), 0);
    lemma_first_index(entries, key_y0(), 1);
    lemma_first_index(entries, key_x1(), 2);
    lemma_first_index(entries, key_y1(), 3);
    assert(number_field(entries, Field::X0) == Ok::<u64, SchemaError>(pair.x0));
    assert(number_field(entries, Field::Y0) == Ok::<u64, SchemaError>(pair.y0));
    assert(number_field(entries, Field::X1) == Ok::<u64, SchemaError>(pair.x1));
    assert(number_field(entries, Field::Y1) == Ok::<u64, SchemaError>(pair.y1));
}

/// The objects of `k` pairs hold those pairs.
proof fn lemma_pairs_of_trees(pairs: Seq<Pair>, k: int)
    requires
        0 <= k <= pairs.len(),
    ensures
        pairs_of(pair_trees(pairs, pairs.len() as int), k) == Ok::<Seq<Pair>, SchemaError>(
            pairs.take(k),
        ),
    decreases k,
{
    if k == 0 {
        assert(pairs.take(0) == Seq::<Pair>::empty());
    } else {
        lemma_pairs_of_trees(pairs, k - 1);
        lemma_pair_of_tree(pairs[k - 1]);
        assert(pairs.take(k - 1).push(pairs[k - 1]) == pairs.take(k));
    }
}

/// The digit text of the four coordinates of a pair, as it stands in a
/// document.
pub struct PairText {
    pub x0: Seq<u8>,
    pub y0: Seq<u8>,
    pub x1: Seq<u8>,
    pub y1: Seq<u8>,
}

/// Digit text: not empty, and made of number bytes.
pub open spec fn is_digit_text(digits: Seq<u8>) -> bool {
    lexeme_ok(Lexeme::Digits(digits))
}

/// Each coordinate is digit text that decodes to the coordinate of `pair`.
pub open spec fn spells_pair(text: PairText, pair: Pair, dec: Decoding) -> bool {
    &&& is_digit_text(text.x0) && dec(latin1(text.x0)) == Some(pair.x0)
    &&& is_digit_text(text.y0) && dec(latin1(text.y0)) == Some(pair.y0)
    &&& is_digit_text(text.x1) && dec(latin1(text.x1)) == Some(pair.x1)
    &&& is_digit_text(text.y1) && dec(latin1(text.y1)) == Some(pair.y1)
}

/// The texts spell the pairs, one for one.
pub open spec fn spell_pairs(texts: Seq<PairText>, pairs: Seq<Pair>, dec: Decoding) -> bool {
    &&& texts.len() == pairs.len()
    &&& forall|i: int| 0 <= i < texts.len() ==> spells_pair(#[trigger] texts[i], pairs[i], dec)
}

/// The bytes of a key.
pub open spec fn key_bytes(key: Seq<char>) -> Seq<u8> {
    key.map_values(|c: char| c as u8)
}

/// The lexemes of one pair.
pub open spec fn pair_lexemes(text: PairText) -> Seq<Lexeme> {
    seq![
        Lexeme::Punct(OPEN_BRACE),
        Lexeme::Text(key_bytes(key_x0())),
        Lexeme::Punct(COLON),
        Lexeme::Digits(text.x0),
        Lexeme::Punct(COMMA),
        Lexeme::Text(key_bytes(key_y0())),
        Lexeme::Punct(COLON),
        Lexeme::Digits(text.y0),
        Lexeme::Punct(COMMA),
        Lexeme::Text(key_bytes(key_x1())),
        Lexeme::Punct(COLON),
        Lexeme::Digits(text.x1),
        Lexeme::Punct(COMMA),
        Lexeme::Text(key_bytes(key_y1())),
        Lexeme::Punct(COLON),
        Lexeme::Digits(text.y1),
        Lexeme::Punct(CLOSE_BRACE),
    ]
}

/// The lexemes of the first `k` pairs, with a comma between each two.
pub open spec fn pairs_lexemes(texts: Seq<PairText>, k: int) -> Seq<Lexeme>
    decreases k,
{
    if k <= 0 {
        Seq::empty()
    } else if k == 1 {
        pair_lexemes(texts[0])
    } else {
        pairs_lexemes(texts, k - 1) + seq![Lexeme::Punct(COMMA)] + pair_lexemes(texts[k - 1])
    }
}

/// The lexemes that open a coordinate-pair document.
pub open spec fn opening_lexemes() -> Seq<Lexeme> {
    seq![
        Lexeme::Punct(OPEN_BRACE),
        Lexeme::Text(key_bytes(key_pairs())),
        Lexeme::Punct(COLON),
        Lexeme::Punct(OPEN_BRACKET),
    ]
}

/// The lexemes that close a coordinate-pair document.
pub open spec fn closing_lexemes() -> Seq<Lexeme> {
    seq![Lexeme::Punct(CLOSE_BRACKET), Lexeme::Punct(CLOSE_BRACE)]
}

/// The lexemes of a coordinate-pair document:
/// `{"pairs":[{"x0":..,"y0":..,"x1":..,"y1":..}, ..]}`.
pub open spec fn document_lexemes(texts: Seq<PairText>) -> Seq<Lexeme> {
    opening_lexemes() + pairs_lexemes(texts, texts.len() as int) + closing_lexemes()
}

/// The bytes of the five keys are their characters.
proof fn lemma_key_bytes()
    ensures
        latin1(key_bytes(key_pairs())) == key_pairs(),
        latin1(key_bytes(key_x0())) == key_x0(),
        latin1(key_bytes(key_y0())) == key_y0(),
        latin1(key_bytes(key_x1())) == key_x1(),
        latin1(key_bytes(key_y1())) == key_y1(),
        lexeme_ok(Lexeme::Text(key_bytes(key_pairs()))),
        lexeme_ok(Lexeme::Text(key_bytes(key_x0()))),
        lexeme_ok(Lexeme::Text(key_bytes(key_y0()))),
        lexeme_ok(Lexeme::Text(key_bytes(key_x1()))),
        lexeme_ok(Lexeme::Text(key_bytes(key_y1()))),
{
    assert(key_bytes(key_pairs()) == seq![0x70u8, 0x61u8, 0x69u8, 0x72u8, 0x73u8]);
    assert(key_bytes(key_x0()) == seq![0x78u8, 0x30u8]);
    assert(key_bytes(key_y0()) == seq![0x79u8, 0x30u8]);
    assert(key_bytes(key_x1()) == seq![0x78u8, 0x31u8]);
    assert(key_bytes(key_y1()) == seq![0x79u8, 0x31u8]);
    assert(latin1(key_bytes(key_pairs())) == key_pairs());
    assert(latin1(key_bytes(key_x0())) == key_x0());
    assert(latin1(key_bytes(key_y0())) == key_y0());
    assert(latin1(key_bytes(key_x1())) == key_x1());
    assert(latin1(key_bytes(key_y1())) == key_y1());
}

/// The lexemes of a pair can be read back, their numbers end, and their
/// tokens are the tokens of the pair.
proof fn lemma_pair_lexemes(text: PairText, pair: Pair, dec: Decoding)
    requires
        spells_pair(text, pair, dec),
    ensures
        all_ok(pair_lexemes(text)),
        numbers_end(pair_lexemes(text)),
        tokens_of(pair_lexemes(text), dec) == pair_tokens(pair),
{
    lemma_key_bytes();
    let ls = pair_lexemes(text);
    assert(ls.len() == 17);
    reveal_with_fuel(tokens_prefix, 18);
    assert(tokens_of(ls, dec) == pair_tokens(pair));
}

/// The lexemes of `k` pairs can be read back, their numbers end, and their
/// tokens are the tokens of the pairs.
proof fn lemma_pairs_lexemes(texts: Seq<PairText>, pairs: Seq<Pair>, dec: Decoding, k: int)
    requires
        spell_pairs(texts, pairs, dec),
        0 <= k <= texts.len(),
    ensures
        all_ok(pairs_lexemes(texts, k)),
        numbers_end(pairs_lexemes(texts, k)),
        tokens_of(pairs_lexemes(texts, k), dec) == pairs_tokens(pairs, k),
    decreases k,
{
    if k <= 0 {
    } else if k == 1 {
        lemma_pair_lexemes(texts[0], pairs[0], dec);
    } else {
        lemma_pairs_lexemes(texts, pairs, dec, k - 1);
        lemma_pair_lexemes(texts[k - 1], pairs[k - 1], dec);
        let head = pairs_lexemes(texts, k - 1);
        let comma = seq![Lexeme::Punct(COMMA)];
        lemma_single_punct(COMMA, dec);
        lemma_lexemes_concat(head, comma, dec);
        lemma_lexemes_concat(head + comma, pair_lexemes(texts[k - 1]), dec);
    }
}

/// A structural byte alone can be read back, holds no number, and yields
/// its token.
proof fn lemma_single_punct(b: u8, dec: Decoding)
    requires
        lexeme_ok(Lexeme::Punct(b)),
    ensures
        all_ok(seq![Lexeme::Punct(b)]),
        numbers_end(seq![Lexeme::Punct(b)]),
        tokens_of(seq![Lexeme::Punct(b)], dec) == seq![
            structural_token(b).unwrap(),
        ],
{
    reveal_with_fuel(tokens_prefix, 2);
}

/// The lexemes of a coordinate-pair document can be read back, their
/// numbers end, and their tokens are the tokens of the document.
proof fn lemma_document_lexemes(texts: Seq<PairText>, pairs: Seq<Pair>, dec: Decoding)
    requires
        spell_pairs(texts, pairs, dec),
    ensures
        all_ok(document_lexemes(texts)),
        numbers_end(document_lexemes(texts)),
        tokens_of(document_lexemes(texts), dec) == document_tokens(pairs),
{
    lemma_key_bytes();
    let body = pairs_lexemes(texts, texts.len() as int);
    lemma_pairs_lexemes(texts, pairs, dec, texts.len() as int);
    assert(all_ok(opening_lexemes()));
    assert(numbers_end(opening_lexemes()));
    assert(tokens_of(opening_lexemes(), dec) == opening_tokens()) by {
        reveal_with_fuel(tokens_prefix, 5);
    }
    assert(all_ok(closing_lexemes()));
    assert(numbers_end(closing_lexemes()));
    assert(tokens_of(closing_lexemes(), dec) == seq![
        TokenView::CloseBracket,
        TokenView::CloseBrace,
    ]) by {
        reveal_with_fuel(tokens_prefix, 3);
    }
    lemma_lexemes_concat(opening_lexemes(), body, dec);
    lemma_lexemes_concat(opening_lexemes() + body, closing_lexemes(), dec);
}

/// A coordinate-pair document with at least one pair, whatever gaps stand
/// between its lexemes, is tokenized and parsed to the tree of its pairs,
/// and the pairs are read out of that tree as they are.
pub proof fn lemma_document_parses(
    texts: Seq<PairText>,
    gaps: Seq<Seq<u8>>,
    pairs: Seq<Pair>,
    dec: Decoding,
)
    requires
        texts.len() >= 1,
        spell_pairs(texts, pairs, dec),
        gaps.len() == document_lexemes(texts).len() + 1,
        forall|i: int| 0 <= i < gaps.len() ==> is_gap(#[trigger] gaps[i]),
    ensures
        parse(tokenize(spell(document_lexemes(texts), gaps), dec)) == Some(document_tree(pairs)),
        coordinate_pairs_of(document_tree(pairs)) == Ok::<Seq<Pair>, SchemaError>(pairs),
{
    lemma_document_lexemes(texts, pairs, dec);
    lemma_tokenize_spell(document_lexemes(texts), gaps, dec);
    lemma_parse_document(pairs);
    lemma_pairs_of_document(pairs);
}

/// Text that the tokenizer takes for a number: the characters of some
/// digit text.
pub open spec fn is_number_text(text: Seq<char>) -> bool {
    exists|digits: Seq<u8>| is_digit_text(digits) && latin1(digits) == text
}

/// The bytes of number text.
pub open spec fn number_bytes(text: Seq<char>) -> Seq<u8> {
    choose|digits: Seq<u8>| is_digit_text(digits) && latin1(digits) == text
}

/// The renderer writes each coordinate of the pair as number text that the
/// decoder reads back as the same coordinate.
pub open spec fn reads_back(pair: Pair, ren: Rendering, dec: Decoding) -> bool {
    &&& is_number_text(ren(pair.x0)) && dec(ren(pair.x0)) == Some(pair.x0)
    &&& is_number_text(ren(pair.y0)) && dec(ren(pair.y0)) == Some(pair.y0)
    &&& is_number_text(ren(pair.x1)) && dec(ren(pair.x1)) == Some(pair.x1)
    &&& is_number_text(ren(pair.y1)) && dec(ren(pair.y1)) == Some(pair.y1)
}

/// The renderer and the decoder undo each other on every pair.
pub open spec fn read_back(pairs: Seq<Pair>, ren: Rendering, dec: Decoding) -> bool {
    forall|i: int| 0 <= i < pairs.len() ==> reads_back(#[trigger] pairs[i], ren, dec)
}

/// The digit text that the renderer writes for a pair.
pub open spec fn rendered(pair: Pair, ren: Rendering) -> PairText {
    PairText {
        x0: number_bytes(ren(pair.x0)),
        y0: number_bytes(ren(pair.y0)),
        x1: number_bytes(ren(pair.x1)),
        y1: number_bytes(ren(pair.y1)),
    }
}

/// The digit text that the renderer writes for each pair.
pub open spec fn rendered_pairs(pairs: Seq<Pair>, ren: Rendering) -> Seq<PairText> {
    Seq::new(pairs.len(), |i: int| rendered(pairs[i], ren))
}

/// What the renderer writes for a pair spells the pair.
proof fn lemma_rendered_spells(pair: Pair, ren: Rendering, dec: Decoding)
    requires
        reads_back(pair, ren, dec),
    ensures
        spells_pair(rendered(pair, ren), pair, dec),
{
}

/// The text of a number field.
pub open spec fn field_text(key: Seq<char>, n: u64, ren: Rendering) -> Seq<char> {
    quoted(key) + seq![':'] + ren(n)
}

/// The lexemes of a number field.
pub open spec fn field_lexemes(key: Seq<char>, digits: Seq<u8>) -> Seq<Lexeme> {
    seq![Lexeme::Text(key_bytes(key)), Lexeme::Punct(COLON), Lexeme::Digits(digits)]
}

/// The characters of the lexemes of a number field are the text of the
/// field.
proof fn lemma_field_text(key: Seq<char>, digits: Seq<u8>, n: u64, ren: Rendering)
    requires
        latin1(key_bytes(key)) == key,
        latin1(digits) == ren(n),
    ensures
        latin1(bytes_of(field_lexemes(key, digits))) == field_text(key, n, ren),
{
    let q = seq![QUOTE];
    reveal_with_fuel(bytes_prefix, 4);
    assert(bytes_of(field_lexemes(key, digits)) == q + key_bytes(key) + q + seq![COLON] + digits);
    assert(latin1(q) == seq!['"']);
    assert(latin1(seq![COLON]) == seq![':']);
    assert(latin1(q + key_bytes(key) + q + seq![COLON] + digits) == latin1(q) + latin1(
        key_bytes(key),
    ) + latin1(q) + latin1(seq![COLON]) + latin1(digits));
}

/// The characters of a structural byte alone.
proof fn lemma_punct_text(b: u8)
    ensures
        latin1(bytes_of(seq![Lexeme::Punct(b)])) == seq![b as char],
{
    reveal_with_fuel(bytes_prefix, 2);
    assert(bytes_of(seq![Lexeme::Punct(b)]) == seq![b]);
}

/// The characters of a run of lexemes that is made longer.
proof fn lemma_extend_text(head: Seq<Lexeme>, tail: Seq<Lexeme>, dec: Decoding)
    ensures
        latin1(bytes_of(head + tail)) == latin1(bytes_of(head)) + latin1(bytes_of(tail)),
{
    lemma_lexemes_concat(head, tail, dec);
    lemma_latin1_concat(bytes_of(head), bytes_of(tail));
}

/// The lexemes of a pair, field by field.
proof fn lemma_pair_lexemes_split(text: PairText)
    ensures
        pair_lexemes(text) == seq![Lexeme::Punct(OPEN_BRACE)] + field_lexemes(key_x0(), text.x0)
            + seq![Lexeme::Punct(COMMA)] + field_lexemes(key_y0(), text.y0) + seq![
            Lexeme::Punct(COMMA),
        ] + field_lexemes(key_x1(), text.x1) + seq![Lexeme::Punct(COMMA)] + field_lexemes(
            key_y1(),
            text.y1,
        ) + seq![Lexeme::Punct(CLOSE_BRACE)],
{
}

/// The characters of the lexemes of a pair, as the renderer writes it, are
/// the compact text of the pair's object.
proof fn lemma_pair_text(pair: Pair, ren: Rendering, dec: Decoding)
    requires
        reads_back(pair, ren, dec),
    ensures
        latin1(bytes_of(pair_lexemes(rendered(pair, ren)))) == json_text(pair_tree(pair), ren),
{
    lemma_key_bytes();
    let text = rendered(pair, ren);
    let open = seq![Lexeme::Punct(OPEN_BRACE)];
    let comma = seq![Lexeme::Punct(COMMA)];
    let close = seq![Lexeme::Punct(CLOSE_BRACE)];
    let f0 = field_lexemes(key_x0(), text.x0);
    let f1 = field_lexemes(key_y0(), text.y0);
    let f2 = field_lexemes(key_x1(), text.x1);
    let f3 = field_lexemes(key_y1(), text.y1);
    let p0 = field_text(key_x0(), pair.x0, ren);
    let p1 = field_text(key_y0(), pair.y0, ren);
    let p2 = field_text(key_x1(), pair.x1, ren);
    let p3 = field_text(key_y1(), pair.y1, ren);
    lemma_field_text(key_x0(), text.x0, pair.x0, ren);
    lemma_field_text(key_y0(), text.y0, pair.y0, ren);
    lemma_field_text(key_x1(), text.x1, pair.x1, ren);
    lemma_field_text(key_y1(), text.y1, pair.y1, ren);
    lemma_punct_text(OPEN_BRACE);
    lemma_punct_text(COMMA);
    lemma_punct_text(CLOSE_BRACE);
    let l1 = open + f0;
    let l2 = l1 + comma;
    let l3 = l2 + f1;
    let l4 = l3 + comma;
    let l5 = l4 + f2;
    let l6 = l5 + comma;
    let l7 = l6 + f3;
    let l8 = l7 + close;
    lemma_pair_lexemes_split(text);
    assert(pair_lexemes(text) == l8);
    lemma_extend_text(open, f0, dec);
    lemma_extend_text(l1, comma, dec);
    lemma_extend_text(l2, f1, dec);
    lemma_extend_text(l3, comma, dec);
    lemma_extend_text(l4, f2, dec);
    lemma_extend_text(l5, comma, dec);
    lemma_extend_text(l6, f3, dec);
    lemma_extend_text(l7, close, dec);

    let entries = pair_tree(pair)->Object_0;
    let parts = entry_texts(entries, ren);
    assert(parts.len() == 4);
    assert(parts[0] == p0);
    assert(parts[1] == p1);
    assert(parts[2] == p2);
    assert(parts[3] == p3);
    lemma_join_take(parts, 0);
    lemma_join_take(parts, 1);
    lemma_join_take(parts, 2);
    lemma_join_take(parts, 3);
    assert(parts.take(4) == parts);
    let j1 = join(parts.take(1));
    let j2 = join(parts.take(2));
    let j3 = join(parts.take(3));
    let j4 = join(parts);
    let brace = seq!['{'];
    let c = seq![','];
    assert(latin1(bytes_of(l1)) == brace + j1);
    assert(latin1(bytes_of(l3)) == brace + j2) by {
        assert((brace + j1) + c + p1 == brace + (j1 + c + p1));
    }
    assert(latin1(bytes_of(l5)) == brace + j3) by {
        assert((brace + j2) + c + p2 == brace + (j2 + c + p2));
    }
    assert(latin1(bytes_of(l7)) == brace + j4) by {
        assert((brace + j3) + c + p3 == brace + (j3 + c + p3));
    }
}

/// The characters of the lexemes of `k` pairs, as the renderer writes
/// them, are the texts of the pairs' objects with commas between them.
proof fn lemma_pairs_text(pairs: Seq<Pair>, ren: Rendering, dec: Decoding, k: int)
    requires
        read_back(pairs, ren, dec),
        0 <= k <= pairs.len(),
    ensures
        latin1(bytes_of(pairs_lexemes(rendered_pairs(pairs, ren), k))) == join(
            item_texts(pair_trees(pairs, pairs.len() as int), ren).take(k),
        ),
    decreases k,
{
    let texts = rendered_pairs(pairs, ren);
    let parts = item_texts(pair_trees(pairs, pairs.len() as int), ren);
    if k <= 0 {
        assert(bytes_of(pairs_lexemes(texts, k)) == Seq::<u8>::empty());
        assert(parts.take(0) == Seq::<Seq<char>>::empty());
        assert(latin1(Seq::<u8>::empty()) == Seq::<char>::empty());
    } else {
        assert(reads_back(pairs[k - 1], ren, dec));
        lemma_pair_text(pairs[k - 1], ren, dec);
        assert(parts[k - 1] == json_text(pair_tree(pairs[k - 1]), ren));
        lemma_join_take(parts, k - 1);
        if k == 1 {
        } else {
            lemma_pairs_text(pairs, ren, dec, k - 1);
            let head = pairs_lexemes(texts, k - 1);
            let comma = seq![Lexeme::Punct(COMMA)];
            lemma_punct_text(COMMA);
            lemma_extend_text(head, comma, dec);
            lemma_extend_text(head + comma, pair_lexemes(texts[k - 1]), dec);
        }
    }
}

/// The compact text of the tree of a coordinate-pair document is the
/// document that the renderer's digit text spells without gaps.
pub proof fn lemma_document_text(pairs: Seq<Pair>, ren: Rendering, dec: Decoding)
    requires
        read_back(pairs, ren, dec),
    ensures
        latin1(bytes_of(document_lexemes(rendered_pairs(pairs, ren)))) == json_text(
            document_tree(pairs),
            ren,
        ),
{
    lemma_key_bytes();
    let n = pairs.len() as int;
    let texts = rendered_pairs(pairs, ren);
    let body = pairs_lexemes(texts, n);
    let items = pair_trees(pairs, n);
    let parts = item_texts(items, ren);
    lemma_pairs_text(pairs, ren, dec, n);
    assert(parts.take(n) == parts);
    let array_text = seq!['['] + join(parts) + seq![']'];
    assert(json_text(JsonModel::Array(items), ren) == array_text);

    let entries = seq![(key_pairs(), JsonModel::Array(items))];
    let fields = entry_texts(entries, ren);
    assert(fields.len() == 1);
    assert(fields[0] == quoted(key_pairs()) + seq![':'] + array_text);
    assert(join(fields) == fields[0]);
    assert(json_text(document_tree(pairs), ren) == seq!['{'] + fields[0] + seq!['}']);

    let q = seq![QUOTE];
    reveal_with_fuel(bytes_prefix, 5);
    assert(bytes_of(opening_lexemes()) == seq![OPEN_BRACE] + q + key_bytes(key_pairs()) + q
        + seq![COLON] + seq![OPEN_BRACKET]);
    assert(latin1(bytes_of(opening_lexemes())) == seq!['{'] + quoted(key_pairs()) + seq![':']
        + seq!['[']) by {
        assert(latin1(seq![OPEN_BRACE]) == seq!['{']);
        assert(latin1(q) == seq!['"']);
        assert(latin1(seq![COLON]) == seq![':']);
        assert(latin1(seq![OPEN_BRACKET]) == seq!['[']);
        assert(latin1(
            seq![OPEN_BRACE] + q + key_bytes(key_pairs()) + q + seq![COLON] + seq![OPEN_BRACKET],
        ) == latin1(seq![OPEN_BRACE]) + latin1(q) + latin1(key_bytes(key_pairs())) + latin1(q)
            + latin1(seq![COLON]) + latin1(seq![OPEN_BRACKET]));
    }
    assert(bytes_of(closing_lexemes()) == seq![CLOSE_BRACKET] + seq![CLOSE_BRACE]);
    assert(latin1(bytes_of(closing_lexemes())) == seq![']'] + seq!['}']) by {
        assert(latin1(seq![CLOSE_BRACKET] + seq![CLOSE_BRACE]) == seq![']'] + seq!['}']);
    }
    lemma_extend_text(opening_lexemes(), body, dec);
    lemma_extend_text(opening_lexemes() + body, closing_lexemes(), dec);
    let head = seq!['{'] + quoted(key_pairs()) + seq![':'] + seq!['['];
    assert(latin1(bytes_of(document_lexemes(texts))) == head + join(parts) + (seq![']'] + seq![
        '}',
    ]));
    assert(head + join(parts) + (seq![']'] + seq!['}']) == seq!['{'] + (quoted(key_pairs())
        + seq![':'] + (seq!['['] + join(parts) + seq![']'])) + seq!['}']);
}

/// What the renderer writes for the pairs spells the pairs.
proof fn lemma_rendered_pairs_spell(pairs: Seq<Pair>, ren: Rendering, dec: Decoding)
    requires
        read_back(pairs, ren, dec),
    ensures
        spell_pairs(rendered_pairs(pairs, ren), pairs, dec),
{
    let texts = rendered_pairs(pairs, ren);
    assert forall|i: int| 0 <= i < texts.len() implies spells_pair(
        #[trigger] texts[i],
        pairs[i],
        dec,
    ) by {
        assert(reads_back(pairs[i], ren, dec));
        lemma_rendered_spells(pairs[i], ren, dec);
    }
}

/// The compact text of the tree of a coordinate-pair document with at
/// least one pair is tokenized and parsed to the same tree, for a decoder
/// that reads back what the renderer writes.
pub proof fn lemma_text_parses_back(
    pairs: Seq<Pair>,
    ren: Rendering,
    dec: Decoding,
    written: Seq<u8>,
)
    requires
        pairs.len() >= 1,
        read_back(pairs, ren, dec),
        latin1(written) == json_text(document_tree(pairs), ren),
    ensures
        parse(tokenize(written, dec)) == Some(document_tree(pairs)),
{
    let texts = rendered_pairs(pairs, ren);
    let lexemes = document_lexemes(texts);
    lemma_document_text(pairs, ren, dec);
    lemma_latin1_injective(written, bytes_of(lexemes));
    lemma_spell_no_gaps(lexemes, lexemes.len() as int);
    lemma_rendered_pairs_spell(pairs, ren, dec);
    let gaps = no_gaps(lexemes.len());
    assert forall|i: int| 0 <= i < gaps.len() implies is_gap(#[trigger] gaps[i]) by {
    }
    lemma_document_parses(texts, gaps, pairs, dec);
}

/// A coordinate-pair document with at least one pair keeps its numbers
/// through the parser and the formatter: it parses to the tree of its
/// pairs, the pairs are read out of the tree bit for bit, and the compact
/// text of the tree parses to the same tree again. The gaps of the document
/// are free, and the decoder reads back what the renderer writes.
pub proof fn lemma_document_round_trip(
    texts: Seq<PairText>,
    gaps: Seq<Seq<u8>>,
    pairs: Seq<Pair>,
    dec: Decoding,
    ren: Rendering,
    written: Seq<u8>,
)
    requires
        texts.len() >= 1,
        spell_pairs(texts, pairs, dec),
        gaps.len() == document_lexemes(texts).len() + 1,
        forall|i: int| 0 <= i < gaps.len() ==> is_gap(#[trigger] gaps[i]),
        read_back(pairs, ren, dec),
        parse(tokenize(spell(document_lexemes(texts), gaps), dec)) matches Some(tree)
            ==> latin1(written) == json_text(tree, ren),
    ensures
        parse(tokenize(spell(document_lexemes(texts), gaps), dec)) == Some(document_tree(pairs)),
        coordinate_pairs_of(document_tree(pairs)) == Ok::<Seq<Pair>, SchemaError>(pairs),
        parse(tokenize(written, dec)) == Some(document_tree(pairs)),
{
    lemma_document_parses(texts, gaps, pairs, dec);
    lemma_text_parses_back(pairs, ren, dec, written);
}

} // verus!
