use vstd::prelude::*;
use crate::lexer::TokenView;
use crate::parser::{JsonModel, ParseState, StateItem, parse, parse_from, parse_step};

verus! {

/// The levels below the innermost one, each waiting for the value that is
/// under construction above it: an object waits with the key for that value
/// on the key stack, an array waits without one.
pub open spec fn enclosing(
    states: Seq<StateItem>,
    values: Seq<JsonModel>,
    keys: Seq<Seq<char>>,
) -> bool
    decreases states.len(),
{
    if states.len() == 0 {
        values.len() == 0 && keys.len() == 0
    } else if states.len() == 1 {
        false
    } else {
        let below = states.take(states.len() - 2);
        let marker = states[states.len() - 2];
        if marker == StateItem::InObject && states.last() == StateItem::ExpectingCommaOrEndObject {
            &&& values.len() > 0
            &&& values.last() is Object
            &&& keys.len() > 0
            &&& enclosing(below, values.drop_last(), keys.drop_last())
        } else if marker == StateItem::InArray && states.last()
            == StateItem::ExpectingCommaOrEndArray {
            &&& values.len() > 0
            &&& values.last() is Array
            &&& enclosing(below, values.drop_last(), keys)
        } else {
            false
        }
    }
}

/// The stacks fit together. With nothing open, the value stack holds the
/// root alone, or nothing before the first container. Otherwise the
/// innermost level is an object or an array in one of its states, its
/// container lies on top of the value stack, a key that was read and not
/// yet used lies on top of the key stack, and the levels below are
/// [`enclosing`].
pub open spec fn consistent(st: ParseState) -> bool {
    let n = st.states.len() as int;
    if n == 0 {
        st.values.len() == 1 && st.keys.len() == 0
    } else if st.states.last() == StateItem::ExpectingValue {
        n == 1 && st.values.len() == 0 && st.keys.len() == 0
    } else if st.values.len() == 0 || n < 2 {
        false
    } else {
        let top = st.states.last();
        let outer = st.values.drop_last();
        if top == StateItem::ExpectingKey || top == StateItem::ExpectingCommaOrEndObject {
            &&& st.states[n - 2] == StateItem::InObject
            &&& st.values.last() is Object
            &&& enclosing(st.states.take(n - 2), outer, st.keys)
        } else if top == StateItem::ExpectingColon {
            &&& st.states[n - 2] == StateItem::InObject
            &&& st.values.last() is Object
            &&& st.keys.len() > 0
            &&& enclosing(st.states.take(n - 2), outer, st.keys.drop_last())
        } else if top == StateItem::ExpectingValueInObject {
            &&& n >= 3
            &&& st.states[n - 2] == StateItem::ExpectingCommaOrEndObject
            &&& st.states[n - 3] == StateItem::InObject
            &&& st.values.last() is Object
            &&& st.keys.len() > 0
            &&& enclosing(st.states.take(n - 3), outer, st.keys.drop_last())
        } else if top == StateItem::ExpectingCommaOrEndArray {
            &&& st.states[n - 2] == StateItem::InArray
            &&& st.values.last() is Array
            &&& enclosing(st.states.take(n - 2), outer, st.keys)
        } else if top == StateItem::ExpectingValueInArray {
            &&& n >= 3
            &&& st.states[n - 2] == StateItem::ExpectingCommaOrEndArray
            &&& st.states[n - 3] == StateItem::InArray
            &&& st.values.last() is Array
            &&& enclosing(st.states.take(n - 3), outer, st.keys)
        } else {
            false
        }
    }
}

/// A level that waits for a value takes its place among the enclosing
/// ones when a container opens above it.
proof fn lemma_enclose(
    below: Seq<StateItem>,
    marker: StateItem,
    waiting: StateItem,
    values: Seq<JsonModel>,
    keys: Seq<Seq<char>>,
)
    requires
        values.len() > 0,
        marker == StateItem::InObject && waiting == StateItem::ExpectingCommaOrEndObject
            && values.last() is Object && keys.len() > 0 && enclosing(
            below,
            values.drop_last(),
            keys.drop_last(),
        ) || marker == StateItem::InArray && waiting == StateItem::ExpectingCommaOrEndArray
            && values.last() is Array && enclosing(below, values.drop_last(), keys),
    ensures
        enclosing(below.push(marker).push(waiting), values, keys),
{
    let states = below.push(marker).push(waiting);
    assert(states.take(states.len() - 2) == below);
}

/// A container that opens where a value is expected keeps the stacks
/// consistent.
proof fn lemma_open_keeps(st: ParseState, token: TokenView)
    requires
        consistent(st),
        token is OpenBrace || token is OpenBracket,
    ensures
        consistent(parse_step(st, token)),
{
    let after = parse_step(st, token);
    let n = st.states.len() as int;
    if after != st {
        let m = after.states.len() as int;
        let top = st.states.last();
        assert(after.values.drop_last() == st.values);
        if top == StateItem::ExpectingValue {
            assert(after.states.take(m - 2) == Seq::<StateItem>::empty()
                || after.states.take(m - 3) == Seq::<StateItem>::empty());
        } else if top == StateItem::ExpectingValueInObject {
            let below = st.states.take(n - 3);
            lemma_enclose(
                below,
                StateItem::InObject,
                StateItem::ExpectingCommaOrEndObject,
                st.values,
                st.keys,
            );
            let kept = below.push(StateItem::InObject).push(StateItem::ExpectingCommaOrEndObject);
            assert(st.states.drop_last() == kept);
            if token is OpenBrace {
                assert(after.states.take(m - 2) == kept);
            } else {
                assert(after.states.take(m - 3) == kept);
            }
        } else {
            let below = st.states.take(n - 3);
            lemma_enclose(
                below,
                StateItem::InArray,
                StateItem::ExpectingCommaOrEndArray,
                st.values,
                st.keys,
            );
            let kept = below.push(StateItem::InArray).push(StateItem::ExpectingCommaOrEndArray);
            assert(st.states.drop_last() == kept);
            assert(after.states.take(m - 2) == kept);
        }
    }
}

/// A key, a colon or a comma keeps the stacks consistent.
proof fn lemma_mark_keeps(st: ParseState, token: TokenView)
    requires
        consistent(st),
        token is Colon || token is Comma || (token is StringContent && st.current() == Some(
            StateItem::ExpectingKey,
        )),
    ensures
        consistent(parse_step(st, token)),
{
    let after = parse_step(st, token);
    let n = st.states.len() as int;
    if after != st {
        let m = after.states.len() as int;
        let top = st.states.last();
        assert(after.values == st.values);
        if token is StringContent {
            assert(after.states.take(m - 2) == st.states.take(n - 2));
            assert(after.keys.drop_last() == st.keys);
        } else if token is Colon {
            assert(after.states.take(m - 3) == st.states.take(n - 2));
        } else if top == StateItem::ExpectingCommaOrEndObject {
            assert(after.states.take(m - 2) == st.states.take(n - 2));
        } else {
            assert(after.states.take(m - 3) == st.states.take(n - 2));
        }
    }
}

/// A finished value that joins the innermost container leaves the levels
/// below as they were.
proof fn lemma_attach_keeps(st: ParseState, child: JsonModel)
    requires
        st.values.len() > 0,
        st.values.last() is Array || (st.values.last() is Object && st.keys.len() > 0),
    ensures
        st.attach(child).states == st.states,
        st.attach(child).values.len() == st.values.len(),
        st.attach(child).values.drop_last() == st.values.drop_last(),
        st.values.last() is Array ==> st.attach(child).values.last() is Array && st.attach(
            child,
        ).keys == st.keys,
        st.values.last() is Object ==> st.attach(child).values.last() is Object && st.attach(
            child,
        ).keys == st.keys.drop_last(),
{
}

/// A string or a number that is taken as a value keeps the stacks
/// consistent.
proof fn lemma_value_keeps(st: ParseState, token: TokenView)
    requires
        consistent(st),
        token is Number || (token is StringContent && st.current() != Some(
            StateItem::ExpectingKey,
        )),
    ensures
        consistent(parse_step(st, token)),
{
    let after = parse_step(st, token);
    let n = st.states.len() as int;
    if after != st {
        let child = match token {
            TokenView::StringContent(s) => JsonModel::String(s),
            TokenView::Number(x) => JsonModel::Number(x),
            _ => arbitrary(),
        };
        let popped = st.replace_top(Seq::empty());
        assert(popped.states == st.states.drop_last());
        assert(after == popped.attach(child));
        lemma_attach_keeps(popped, child);
        let m = after.states.len() as int;
        assert(after.states.take(m - 2) == st.states.take(n - 3));
    }
}

/// A closing delimiter that is taken keeps the stacks consistent.
proof fn lemma_close_keeps(st: ParseState, token: TokenView)
    requires
        consistent(st),
        token is CloseBrace || token is CloseBracket,
    ensures
        consistent(parse_step(st, token)),
{
    let after = parse_step(st, token);
    let n = st.states.len() as int;
    if after != st {
        assert(after == st.close());
        let below = st.states.take(n - 2);
        let outer = st.values.drop_last();
        assert(enclosing(below, outer, st.keys));
        if st.values.len() <= 1 {
            assert(outer.len() == 0);
        } else {
            let k = below.len() as int;
            let parents = ParseState { states: below, values: outer, keys: st.keys };
            assert(after == parents.attach(st.values.last()));
            lemma_attach_keeps(parents, st.values.last());
            assert(after.states.take(k - 2) == below.take(k - 2));
        }
    }
}

/// One token keeps the stacks consistent.
pub proof fn lemma_step_keeps_consistent(st: ParseState, token: TokenView)
    requires
        consistent(st),
    ensures
        consistent(parse_step(st, token)),
{
    match token {
        TokenView::OpenBrace | TokenView::OpenBracket => lemma_open_keeps(st, token),
        TokenView::Colon | TokenView::Comma => lemma_mark_keeps(st, token),
        TokenView::Number(_) => lemma_value_keeps(st, token),
        TokenView::StringContent(_) => {
            if st.current() == Some(StateItem::ExpectingKey) {
                lemma_mark_keeps(st, token);
            } else {
                lemma_value_keeps(st, token);
            }
        },
        TokenView::CloseBrace | TokenView::CloseBracket => lemma_close_keeps(st, token),
    }
}

/// The stacks are consistent after every sequence of tokens.
pub proof fn lemma_always_consistent(tokens: Seq<TokenView>)
    ensures
        consistent(parse_from(ParseState::start(), tokens)),
    decreases tokens.len(),
{
    if tokens.len() > 0 {
        lemma_always_consistent(tokens.drop_last());
        lemma_step_keeps_consistent(
            parse_from(ParseState::start(), tokens.drop_last()),
            tokens.last(),
        );
    }
}

/// The number of objects that are open.
pub open spec fn open_objects(states: Seq<StateItem>) -> nat
    decreases states.len(),
{
    if states.len() == 0 {
        0
    } else if states.last() == StateItem::InObject {
        open_objects(states.drop_last()) + 1
    } else {
        open_objects(states.drop_last())
    }
}

/// The number of arrays that are open.
pub open spec fn open_arrays(states: Seq<StateItem>) -> nat
    decreases states.len(),
{
    if states.len() == 0 {
        0
    } else if states.last() == StateItem::InArray {
        open_arrays(states.drop_last()) + 1
    } else {
        open_arrays(states.drop_last())
    }
}

/// Among the enclosing levels there is a value for each open container and
/// a key for each open object.
proof fn lemma_enclosing_counts(
    states: Seq<StateItem>,
    values: Seq<JsonModel>,
    keys: Seq<Seq<char>>,
)
    requires
        enclosing(states, values, keys),
    ensures
        values.len() == open_objects(states) + open_arrays(states),
        keys.len() == open_objects(states),
    decreases states.len(),
{
    reveal_with_fuel(open_objects, 3);
    reveal_with_fuel(open_arrays, 3);
    if states.len() > 0 {
        let below = states.take(states.len() - 2);
        assert(states.drop_last().drop_last() == below);
        assert(states.drop_last().last() == states[states.len() - 2]);
        if states.last() == StateItem::ExpectingCommaOrEndObject {
            lemma_enclosing_counts(below, values.drop_last(), keys.drop_last());
        } else {
            lemma_enclosing_counts(below, values.drop_last(), keys);
        }
    }
}

/// While a container is open, the value stack holds one container for each
/// open object and each open array, and the key stack holds no more keys
/// than there are open objects.
pub proof fn lemma_stack_sizes(tokens: Seq<TokenView>)
    ensures
        ({
            let st = parse_from(ParseState::start(), tokens);
            &&& st.states.len() > 0 ==> st.values.len() == open_objects(st.states) + open_arrays(
                st.states,
            )
            &&& st.states.len() > 0 ==> st.keys.len() <= open_objects(st.states)
            &&& st.states.len() == 0 ==> st.values.len() == 1 && st.keys.len() == 0
        }),
{
    let st = parse_from(ParseState::start(), tokens);
    lemma_always_consistent(tokens);
    reveal_with_fuel(open_objects, 4);
    reveal_with_fuel(open_arrays, 4);
    let n = st.states.len() as int;
    if n > 0 {
        let top = st.states.last();
        if n >= 2 {
            assert(st.states.drop_last().last() == st.states[n - 2]);
        }
        if n >= 3 {
            assert(st.states.drop_last().drop_last().last() == st.states[n - 3]);
        }
        if top == StateItem::ExpectingValue {
            assert(st.states.drop_last().len() == 0);
        } else if top == StateItem::ExpectingValueInObject || top
            == StateItem::ExpectingValueInArray {
            let below = st.states.take(n - 3);
            assert(st.states.drop_last().drop_last().drop_last() == below);
            if top == StateItem::ExpectingValueInObject {
                lemma_enclosing_counts(below, st.values.drop_last(), st.keys.drop_last());
            } else {
                lemma_enclosing_counts(below, st.values.drop_last(), st.keys);
            }
        } else {
            let below = st.states.take(n - 2);
            assert(st.states.drop_last().drop_last() == below);
            if top == StateItem::ExpectingColon {
                lemma_enclosing_counts(below, st.values.drop_last(), st.keys.drop_last());
            } else {
                lemma_enclosing_counts(below, st.values.drop_last(), st.keys);
            }
        }
    }
}

/// A sequence of tokens has a root exactly when it leaves nothing open.
pub proof fn lemma_root_when_closed(tokens: Seq<TokenView>)
    ensures
        parse(tokens) is Some <==> parse_from(ParseState::start(), tokens).states.len() == 0,
{
    lemma_always_consistent(tokens);
}

} // verus!
