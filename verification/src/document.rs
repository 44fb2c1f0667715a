use vstd::prelude::*;
use crate::lexer::{
    Decoding, LexState, TokenView, is_number_byte, is_terminator, lex_from, lex_step,
    structural_token, tokenize, flush_number, QUOTE,
};

verus! {

/// The characters of a run of bytes, each byte taken as the character of
/// the same code.
pub open spec fn latin1(bytes: Seq<u8>) -> Seq<char> {
    bytes.map_values(|b: u8| b as char)
}

/// A lexical unit as it is written in a document.
pub enum Lexeme {
    /// A structural byte: one of `{`, `}`, `[`, `]`, `,` and `:`.
    Punct(u8),
    /// A string, given by the bytes between its quotes.
    Text(Seq<u8>),
    /// The digit text of a number.
    Digits(Seq<u8>),
}

/// A lexeme that can be written and read back: a structural byte is one,
/// a string holds no quote, digit text is not empty and made of number bytes.
pub open spec fn lexeme_ok(l: Lexeme) -> bool {
    match l {
        Lexeme::Punct(b) => structural_token(b) is Some,
        Lexeme::Text(text) => forall|i: int| 0 <= i < text.len() ==> text[i] != QUOTE,
        Lexeme::Digits(digits) => digits.len() > 0 && forall|i: int|
            0 <= i < digits.len() ==> is_number_byte(#[trigger] digits[i]),
    }
}

/// The bytes of a lexeme.
pub open spec fn lexeme_bytes(l: Lexeme) -> Seq<u8> {
    match l {
        Lexeme::Punct(b) => seq![b],
        Lexeme::Text(text) => seq![QUOTE] + text + seq![QUOTE],
        Lexeme::Digits(digits) => digits,
    }
}

/// The tokens that a lexeme yields: one, or none for digit text that
/// decodes to nothing.
pub open spec fn lexeme_tokens(l: Lexeme, dec: Decoding) -> Seq<TokenView> {
    match l {
        Lexeme::Punct(b) => seq![structural_token(b).unwrap()],
        Lexeme::Text(text) => seq![TokenView::StringContent(latin1(text))],
        Lexeme::Digits(digits) => match dec(latin1(digits)) {
            Some(n) => seq![TokenView::Number(n)],
            None => Seq::empty(),
        },
    }
}

/// A byte that the tokenizer skips outside a string.
pub open spec fn is_skipped(b: u8) -> bool {
    structural_token(b) is None && b != QUOTE && !is_number_byte(b)
}

/// A run of skipped bytes, such as white space.
pub open spec fn is_gap(gap: Seq<u8>) -> bool {
    forall|i: int| 0 <= i < gap.len() ==> is_skipped(#[trigger] gap[i])
}

/// The lexeme is `,`, `}` or `]`.
pub open spec fn ends_number(l: Lexeme) -> bool {
    l matches Lexeme::Punct(b) && is_terminator(b)
}

/// Every number is followed by a lexeme that ends it.
pub open spec fn numbers_end(lexemes: Seq<Lexeme>) -> bool {
    forall|i: int|
        0 <= i < lexemes.len() && (#[trigger] lexemes[i]) is Digits ==> i + 1 < lexemes.len()
            && ends_number(lexemes[i + 1])
}

/// The document made of the first `k` lexemes: a gap, then each lexeme
/// followed by its gap.
pub open spec fn spell_prefix(lexemes: Seq<Lexeme>, gaps: Seq<Seq<u8>>, k: int) -> Seq<u8>
    decreases k,
{
    if k <= 0 {
        gaps[0]
    } else {
        spell_prefix(lexemes, gaps, k - 1) + lexeme_bytes(lexemes[k - 1]) + gaps[k]
    }
}

/// The document that spells `lexemes` with `gaps` around them: `gaps[0]`
/// comes first, `gaps[i + 1]` follows `lexemes[i]`.
pub open spec fn spell(lexemes: Seq<Lexeme>, gaps: Seq<Seq<u8>>) -> Seq<u8> {
    spell_prefix(lexemes, gaps, lexemes.len() as int)
}

/// The tokens of the first `k` lexemes.
pub open spec fn tokens_prefix(lexemes: Seq<Lexeme>, dec: Decoding, k: int) -> Seq<TokenView>
    decreases k,
{
    if k <= 0 {
        Seq::empty()
    } else {
        tokens_prefix(lexemes, dec, k - 1) + lexeme_tokens(lexemes[k - 1], dec)
    }
}

/// The tokens of a sequence of lexemes.
pub open spec fn tokens_of(lexemes: Seq<Lexeme>, dec: Decoding) -> Seq<TokenView> {
    tokens_prefix(lexemes, dec, lexemes.len() as int)
}

/// Reading two runs of bytes one after the other is reading their
/// concatenation.
pub proof fn lemma_lex_from_concat(st: LexState, a: Seq<u8>, b: Seq<u8>, dec: Decoding)
    ensures
        lex_from(st, a + b, dec) == lex_from(lex_from(st, a, dec), b, dec),
    decreases b.len(),
{
    if b.len() == 0 {
        assert(a + b == a);
    } else {
        assert((a + b).drop_last() == a + b.drop_last());
        lemma_lex_from_concat(st, a, b.drop_last(), dec);
    }
}

/// One byte is one step.
pub proof fn lemma_lex_from_byte(st: LexState, b: u8, dec: Decoding)
    ensures
        lex_from(st, seq![b], dec) == lex_step(st, b, dec),
{
    assert(seq![b].drop_last() == Seq::<u8>::empty());
    assert(lex_from(st, seq![b].drop_last(), dec) == st);
}

/// Outside a string a gap changes nothing.
pub proof fn lemma_lex_gap(st: LexState, gap: Seq<u8>, dec: Decoding)
    requires
        !st.in_string,
        is_gap(gap),
    ensures
        lex_from(st, gap, dec) == st,
    decreases gap.len(),
{
    if gap.len() > 0 {
        lemma_lex_gap(st, gap.drop_last(), dec);
        assert(is_skipped(gap[gap.len() - 1]));
    }
}

/// Inside a string every byte but a quote joins the string.
pub proof fn lemma_lex_inside_string(st: LexState, text: Seq<u8>, dec: Decoding)
    requires
        st.in_string,
        forall|i: int| 0 <= i < text.len() ==> text[i] != QUOTE,
    ensures
        lex_from(st, text, dec) == (LexState { string: st.string + latin1(text), ..st }),
    decreases text.len(),
{
    if text.len() == 0 {
        assert(st.string + latin1(text) == st.string);
    } else {
        lemma_lex_inside_string(st, text.drop_last(), dec);
        assert(st.string + latin1(text) == (st.string + latin1(text.drop_last())).push(
            text.last() as char,
        ));
    }
}

/// Outside a string, a string between quotes yields its token.
pub proof fn lemma_lex_text(st: LexState, text: Seq<u8>, dec: Decoding)
    requires
        !st.in_string,
        st.string.len() == 0,
        forall|i: int| 0 <= i < text.len() ==> text[i] != QUOTE,
    ensures
        lex_from(st, seq![QUOTE] + text + seq![QUOTE], dec) == (LexState {
            tokens: st.tokens.push(TokenView::StringContent(latin1(text))),
            ..st
        }),
{
    let opened = LexState { in_string: true, ..st };
    lemma_lex_from_byte(st, QUOTE, dec);
    lemma_lex_from_concat(st, seq![QUOTE], text, dec);
    lemma_lex_inside_string(opened, text, dec);
    lemma_lex_from_concat(st, seq![QUOTE] + text, seq![QUOTE], dec);
    let filled = LexState { string: opened.string + latin1(text), ..opened };
    lemma_lex_from_byte(filled, QUOTE, dec);
    assert(opened.string + latin1(text) == latin1(text));
    assert(st.string == Seq::<char>::empty());
}

/// Outside a string, number bytes join the pending digit text.
pub proof fn lemma_lex_digits(st: LexState, digits: Seq<u8>, dec: Decoding)
    requires
        !st.in_string,
        forall|i: int| 0 <= i < digits.len() ==> is_number_byte(#[trigger] digits[i]),
    ensures
        lex_from(st, digits, dec) == (LexState { digit: st.digit + latin1(digits), ..st }),
    decreases digits.len(),
{
    if digits.len() == 0 {
        assert(st.digit + latin1(digits) == st.digit);
    } else {
        lemma_lex_digits(st, digits.drop_last(), dec);
        assert(is_number_byte(digits[digits.len() - 1]));
        assert(st.digit + latin1(digits) == (st.digit + latin1(digits.drop_last())).push(
            digits.last() as char,
        ));
    }
}

/// Every lexeme can be written and read back.
pub open spec fn all_ok(lexemes: Seq<Lexeme>) -> bool {
    forall|i: int| 0 <= i < lexemes.len() ==> lexeme_ok(#[trigger] lexemes[i])
}

/// The bytes of the first `k` lexemes, with nothing between them.
pub open spec fn bytes_prefix(lexemes: Seq<Lexeme>, k: int) -> Seq<u8>
    decreases k,
{
    if k <= 0 {
        Seq::empty()
    } else {
        bytes_prefix(lexemes, k - 1) + lexeme_bytes(lexemes[k - 1])
    }
}

/// The compact document of a sequence of lexemes: their bytes with nothing
/// between them.
pub open spec fn bytes_of(lexemes: Seq<Lexeme>) -> Seq<u8> {
    bytes_prefix(lexemes, lexemes.len() as int)
}

/// Gaps that hold nothing, for `n` lexemes.
pub open spec fn no_gaps(n: nat) -> Seq<Seq<u8>> {
    Seq::new(n + 1, |i: int| Seq::<u8>::empty())
}

/// Spelled without gaps, a document is the bytes of its lexemes.
pub proof fn lemma_spell_no_gaps(lexemes: Seq<Lexeme>, k: int)
    requires
        0 <= k <= lexemes.len(),
    ensures
        spell_prefix(lexemes, no_gaps(lexemes.len()), k) == bytes_prefix(lexemes, k),
    decreases k,
{
    if k > 0 {
        lemma_spell_no_gaps(lexemes, k - 1);
        assert(no_gaps(lexemes.len())[k] == Seq::<u8>::empty());
        assert(bytes_prefix(lexemes, k - 1) + lexeme_bytes(lexemes[k - 1]) + Seq::<u8>::empty()
            == bytes_prefix(lexemes, k - 1) + lexeme_bytes(lexemes[k - 1]));
    } else {
        assert(no_gaps(lexemes.len())[0] == Seq::<u8>::empty());
    }
}

/// A prefix of a concatenation that ends inside its first part is a prefix
/// of that part.
proof fn lemma_prefix_of_concat(a: Seq<Lexeme>, b: Seq<Lexeme>, dec: Decoding, k: int)
    requires
        0 <= k <= a.len(),
    ensures
        tokens_prefix(a + b, dec, k) == tokens_prefix(a, dec, k),
        bytes_prefix(a + b, k) == bytes_prefix(a, k),
    decreases k,
{
    if k > 0 {
        lemma_prefix_of_concat(a, b, dec, k - 1);
        assert((a + b)[k - 1] == a[k - 1]);
    }
}

/// The tokens and the bytes of a concatenation, up to a place in its second
/// part.
proof fn lemma_prefix_past_concat(a: Seq<Lexeme>, b: Seq<Lexeme>, dec: Decoding, k: int)
    requires
        0 <= k <= b.len(),
    ensures
        tokens_prefix(a + b, dec, a.len() + k) == tokens_of(a, dec) + tokens_prefix(b, dec, k),
        bytes_prefix(a + b, a.len() + k) == bytes_of(a) + bytes_prefix(b, k),
    decreases k,
{
    if k == 0 {
        lemma_prefix_of_concat(a, b, dec, a.len() as int);
        assert(tokens_of(a, dec) + Seq::<TokenView>::empty() == tokens_of(a, dec));
        assert(bytes_of(a) + Seq::<u8>::empty() == bytes_of(a));
    } else {
        lemma_prefix_past_concat(a, b, dec, k - 1);
        assert((a + b)[a.len() + k - 1] == b[k - 1]);
        assert((tokens_of(a, dec) + tokens_prefix(b, dec, k - 1)) + lexeme_tokens(b[k - 1], dec)
            == tokens_of(a, dec) + (tokens_prefix(b, dec, k - 1) + lexeme_tokens(b[k - 1], dec)));
        assert((bytes_of(a) + bytes_prefix(b, k - 1)) + lexeme_bytes(b[k - 1]) == bytes_of(a) + (
        bytes_prefix(b, k - 1) + lexeme_bytes(b[k - 1])));
    }
}

/// The tokens and the bytes of a concatenation are those of its parts, one
/// after the other; parts that can be read back, and whose numbers end,
/// make a whole of which the same holds.
pub proof fn lemma_lexemes_concat(a: Seq<Lexeme>, b: Seq<Lexeme>, dec: Decoding)
    ensures
        tokens_of(a + b, dec) == tokens_of(a, dec) + tokens_of(b, dec),
        bytes_of(a + b) == bytes_of(a) + bytes_of(b),
        all_ok(a) && all_ok(b) ==> all_ok(a + b),
        numbers_end(a) && numbers_end(b) ==> numbers_end(a + b),
{
    lemma_prefix_past_concat(a, b, dec, b.len() as int);
    if all_ok(a) && all_ok(b) {
        assert forall|i: int| 0 <= i < (a + b).len() implies lexeme_ok(#[trigger] (a + b)[i]) by {
            if i < a.len() {
                assert((a + b)[i] == a[i]);
            } else {
                assert((a + b)[i] == b[i - a.len()]);
            }
        }
    }
    if numbers_end(a) && numbers_end(b) {
        assert forall|i: int| 0 <= i < (a + b).len() && (#[trigger] (a + b)[i]) is Digits implies i
            + 1 < (a + b).len() && ends_number((a + b)[i + 1]) by {
            if i < a.len() {
                assert((a + b)[i] == a[i]);
                assert((a + b)[i + 1] == a[i + 1]);
            } else {
                assert((a + b)[i] == b[i - a.len()]);
                assert((a + b)[i + 1] == b[i - a.len() + 1]);
            }
        }
    }
}

/// The characters of a concatenation of bytes.
pub proof fn lemma_latin1_concat(a: Seq<u8>, b: Seq<u8>)
    ensures
        latin1(a + b) == latin1(a) + latin1(b),
{
}

/// Bytes with the same characters are the same bytes.
pub proof fn lemma_latin1_injective(a: Seq<u8>, b: Seq<u8>)
    requires
        latin1(a) == latin1(b),
    ensures
        a == b,
{
    assert(a.len() == latin1(a).len());
    assert(b.len() == latin1(b).len());
    assert forall|i: int| 0 <= i < a.len() implies a[i] == b[i] by {
        assert(latin1(a)[i] == a[i] as char);
        assert(latin1(b)[i] == b[i] as char);
        assert((a[i] as char) as u8 == a[i]);
        assert((b[i] as char) as u8 == b[i]);
    }
}

/// The tokenizer after the first `k` lexemes of a document: it is outside
/// any string, and either the last lexeme was digit text, which is pending,
/// or nothing is pending.
spec fn after_prefix(lexemes: Seq<Lexeme>, dec: Decoding, k: int) -> LexState {
    if k > 0 && lexemes[k - 1] is Digits {
        LexState {
            tokens: tokens_prefix(lexemes, dec, k - 1),
            string: Seq::empty(),
            in_string: false,
            digit: latin1(lexemes[k - 1]->Digits_0),
        }
    } else {
        LexState {
            tokens: tokens_prefix(lexemes, dec, k),
            string: Seq::empty(),
            in_string: false,
            digit: Seq::empty(),
        }
    }
}

/// What the tokenizer holds after each prefix of a spelled document.
proof fn lemma_lex_prefix(lexemes: Seq<Lexeme>, gaps: Seq<Seq<u8>>, dec: Decoding, k: int)
    requires
        0 <= k <= lexemes.len(),
        gaps.len() == lexemes.len() + 1,
        forall|i: int| 0 <= i < gaps.len() ==> is_gap(#[trigger] gaps[i]),
        forall|i: int| 0 <= i < lexemes.len() ==> lexeme_ok(#[trigger] lexemes[i]),
        numbers_end(lexemes),
    ensures
        lex_from(LexState::start(), spell_prefix(lexemes, gaps, k), dec) == after_prefix(
            lexemes,
            dec,
            k,
        ),
    decreases k,
{
    let start = LexState::start();
    if k == 0 {
        assert(is_gap(gaps[0]));
        lemma_lex_gap(start, gaps[0], dec);
        assert(tokens_prefix(lexemes, dec, 0) == Seq::<TokenView>::empty());
    } else {
        lemma_lex_prefix(lexemes, gaps, dec, k - 1);
        let before = after_prefix(lexemes, dec, k - 1);
        let l = lexemes[k - 1];
        let head = spell_prefix(lexemes, gaps, k - 1);
        assert(lexeme_ok(l));
        assert(is_gap(gaps[k]));
        lemma_lex_from_concat(start, head + lexeme_bytes(l), gaps[k], dec);
        lemma_lex_from_concat(start, head, lexeme_bytes(l), dec);
        let read = lex_from(before, lexeme_bytes(l), dec);
        let pending = k - 1 > 0 && lexemes[k - 2] is Digits;
        if pending {
            assert(ends_number(lexemes[k - 2 + 1]));
            assert(lexeme_ok(lexemes[k - 2]));
        }
        match l {
            Lexeme::Punct(b) => {
                lemma_lex_from_byte(before, b, dec);
                if pending {
                    let digits = lexemes[k - 2]->Digits_0;
                    assert(latin1(digits).len() > 0);
                    assert(flush_number(before.tokens, before.digit, dec) == tokens_prefix(
                        lexemes,
                        dec,
                        k - 1,
                    ));
                } else {
                    assert(flush_number(before.tokens, before.digit, dec) == before.tokens);
                }
                let token = structural_token(b).unwrap();
                assert(tokens_prefix(lexemes, dec, k - 1).push(token) == tokens_prefix(
                    lexemes,
                    dec,
                    k - 1,
                ) + seq![token]);
                assert(read.tokens == tokens_prefix(lexemes, dec, k));
                assert(read == after_prefix(lexemes, dec, k));
            },
            Lexeme::Text(text) => {
                assert(!pending);
                lemma_lex_text(before, text, dec);
                let token = TokenView::StringContent(latin1(text));
                assert(before.tokens.push(token) == before.tokens + seq![token]);
                assert(read == after_prefix(lexemes, dec, k));
            },
            Lexeme::Digits(digits) => {
                assert(!pending);
                lemma_lex_digits(before, digits, dec);
                assert(before.digit + latin1(digits) == latin1(digits));
                assert(read == after_prefix(lexemes, dec, k));
            },
        }
        lemma_lex_gap(read, gaps[k], dec);
    }
}

/// Tokenizing a spelled document gives back the tokens of its lexemes:
/// the gaps leave no trace, strings come back character by character, and
/// each number is what its digit text decodes to.
pub proof fn lemma_tokenize_spell(lexemes: Seq<Lexeme>, gaps: Seq<Seq<u8>>, dec: Decoding)
    requires
        gaps.len() == lexemes.len() + 1,
        forall|i: int| 0 <= i < gaps.len() ==> is_gap(#[trigger] gaps[i]),
        forall|i: int| 0 <= i < lexemes.len() ==> lexeme_ok(#[trigger] lexemes[i]),
        numbers_end(lexemes),
    ensures
        tokenize(spell(lexemes, gaps), dec) == tokens_of(lexemes, dec),
{
    lemma_lex_prefix(lexemes, gaps, dec, lexemes.len() as int);
    if lexemes.len() > 0 && lexemes[lexemes.len() - 1] is Digits {
        assert(ends_number(lexemes[lexemes.len() - 1 + 1]));
    }
}

} // verus!
