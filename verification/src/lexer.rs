use vstd::prelude::*;

verus! {

/// A lexical unit of a document.
///
/// `Number` holds a decoded double-precision value as its IEEE 754 bit
/// pattern; the library carries the pattern and never looks inside it.
#[derive(Clone, Debug, PartialEq)]
pub enum Token {
    OpenBrace,
    CloseBrace,
    OpenBracket,
    CloseBracket,
    Comma,
    Colon,
    StringContent(String),
    Number(u64),
}

/// The mathematical value of a [`Token`].
pub enum TokenView {
    OpenBrace,
    CloseBrace,
    OpenBracket,
    CloseBracket,
    Comma,
    Colon,
    StringContent(Seq<char>),
    Number(u64),
}

impl View for Token {
    type V = TokenView;

    open spec fn view(&self) -> TokenView {
        match self {
            Token::OpenBrace => TokenView::OpenBrace,
            Token::CloseBrace => TokenView::CloseBrace,
            Token::OpenBracket => TokenView::OpenBracket,
            Token::CloseBracket => TokenView::CloseBracket,
            Token::Comma => TokenView::Comma,
            Token::Colon => TokenView::Colon,
            Token::StringContent(s) => TokenView::StringContent(s@),
            Token::Number(n) => TokenView::Number(*n),
        }
    }
}

/// The text of a token: the delimiter itself, the characters of a string
/// without quotes, the rendering of a number.
pub open spec fn token_text(token: TokenView, ren: Rendering) -> Seq<char> {
    match token {
        TokenView::OpenBrace => seq!['{'],
        TokenView::CloseBrace => seq!['}'],
        TokenView::OpenBracket => seq!['['],
        TokenView::CloseBracket => seq![']'],
        TokenView::Comma => seq![','],
        TokenView::Colon => seq![':'],
        TokenView::StringContent(s) => s,
        TokenView::Number(n) => ren(n),
    }
}

/// A string of one character.
fn single(c: char) -> (text: String)
    ensures
        text@ == seq![c],
{
    let mut text = String::new();
    text.push(c);
    text
}

impl Token {
    /// The text of the token. `render` turns the bit pattern of a number
    /// into its text.
    pub fn format<R: Fn(u64) -> String>(&self, render: &R) -> (text: String)
        requires
            forall|n: u64| call_requires(*render, (n,)),
        ensures
            forall|ren: Rendering| #[trigger]
                renders_as(render, ren) ==> text@ == token_text(self@, ren),
    {
        match self {
            Token::OpenBrace => single('{'),
            Token::CloseBrace => single('}'),
            Token::OpenBracket => single('['),
            Token::CloseBracket => single(']'),
            Token::Comma => single(','),
            Token::Colon => single(':'),
            Token::StringContent(s) => s.clone(),
            Token::Number(n) => render(*n),
        }
    }
}

/// The values of a sequence of tokens, in order.
pub open spec fn token_views(tokens: Seq<Token>) -> Seq<TokenView> {
    tokens.map_values(|t: Token| t@)
}

/// A number decoder as a mathematical function: the bit pattern that a
/// piece of digit text stands for, or `None` where the text is no number.
pub type Decoding = spec_fn(Seq<char>) -> Option<u64>;

/// `decode` behaves as the function `dec`: whatever a call returns is what
/// `dec` gives for the characters of the text.
pub open spec fn decodes_as<D: Fn(&str) -> Option<u64>>(decode: &D, dec: Decoding) -> bool {
    forall|text: &str, r: Option<u64>| #[trigger]
        call_ensures(*decode, (text,), r) ==> r == dec(text@)
}

/// A number renderer as a mathematical function: the text of the number
/// with the given bit pattern.
pub type Rendering = spec_fn(u64) -> Seq<char>;

/// `render` behaves as the function `ren`: whatever a call returns has the
/// characters that `ren` gives for the bit pattern.
pub open spec fn renders_as<R: Fn(u64) -> String>(render: &R, ren: Rendering) -> bool {
    forall|n: u64, text: String| #[trigger] call_ensures(*render, (n,), text) ==> text@ == ren(n)
}

/// The byte `{`.
pub const OPEN_BRACE: u8 = 0x7b;

/// The byte `}`.
pub const CLOSE_BRACE: u8 = 0x7d;

/// The byte `[`.
pub const OPEN_BRACKET: u8 = 0x5b;

/// The byte `]`.
pub const CLOSE_BRACKET: u8 = 0x5d;

/// The byte `,`.
pub const COMMA: u8 = 0x2c;

/// The byte `:`.
pub const COLON: u8 = 0x3a;

/// The byte `"`.
pub const QUOTE: u8 = 0x22;

/// The bytes that accumulate into a number: `0` to `9`, `-`, `.`, `e`, `E`, `+`.
pub open spec fn is_number_byte(b: u8) -> bool {
    ||| 0x30 <= b <= 0x39
    ||| b == 0x2d
    ||| b == 0x2e
    ||| b == 0x65
    ||| b == 0x45
    ||| b == 0x2b
}

/// Whether a byte belongs to a number.
pub fn is_number(b: u8) -> (r: bool)
    ensures
        r == is_number_byte(b),
{
    (0x30 <= b && b <= 0x39) || b == 0x2d || b == 0x2e || b == 0x65 || b == 0x45 || b == 0x2b
}

/// The bytes that end a pending number: `,`, `}` and `]`.
pub open spec fn is_terminator(b: u8) -> bool {
    b == COMMA || b == CLOSE_BRACE || b == CLOSE_BRACKET
}

/// The token that a structural byte stands for.
pub open spec fn structural_token(b: u8) -> Option<TokenView> {
    if b == OPEN_BRACE {
        Some(TokenView::OpenBrace)
    } else if b == CLOSE_BRACE {
        Some(TokenView::CloseBrace)
    } else if b == OPEN_BRACKET {
        Some(TokenView::OpenBracket)
    } else if b == CLOSE_BRACKET {
        Some(TokenView::CloseBracket)
    } else if b == COMMA {
        Some(TokenView::Comma)
    } else if b == COLON {
        Some(TokenView::Colon)
    } else {
        None
    }
}

/// The tokenizer between two bytes.
pub struct LexState {
    /// The tokens emitted so far.
    pub tokens: Seq<TokenView>,
    /// The characters of the string that is open, if one is.
    pub string: Seq<char>,
    /// Whether the last quote opened a string.
    pub in_string: bool,
    /// The digit text that waits for a terminator.
    pub digit: Seq<char>,
}

impl LexState {
    /// The tokenizer before the first byte.
    pub open spec fn start() -> LexState {
        LexState {
            tokens: Seq::empty(),
            string: Seq::empty(),
            in_string: false,
            digit: Seq::empty(),
        }
    }
}

/// The tokens after pending digit text has met a terminator: the decoded
/// number is appended, and text that decodes to nothing leaves no token.
pub open spec fn flush_number(tokens: Seq<TokenView>, digit: Seq<char>, dec: Decoding) -> Seq<
    TokenView,
> {
    if digit.len() == 0 {
        tokens
    } else {
        match dec(digit) {
            Some(n) => tokens.push(TokenView::Number(n)),
            None => tokens,
        }
    }
}

/// One byte of input.
///
/// Inside a string every byte but the closing quote is kept verbatim, as the
/// character of the same code. Outside, `{`, `[` and `:` emit their token at
/// once; `,`, `}` and `]` first flush the pending number; a quote opens a
/// string; a number byte joins the pending digit text; any other byte is
/// skipped. A skipped byte does not end the pending digit text: digits on
/// both sides of it run together into one number.
pub open spec fn lex_step(st: LexState, b: u8, dec: Decoding) -> LexState {
    if st.in_string {
        if b == QUOTE {
            LexState {
                tokens: st.tokens.push(TokenView::StringContent(st.string)),
                string: Seq::empty(),
                in_string: false,
                digit: st.digit,
            }
        } else {
            LexState { string: st.string.push(b as char), ..st }
        }
    } else if is_terminator(b) {
        LexState {
            tokens: flush_number(st.tokens, st.digit, dec).push(structural_token(b).unwrap()),
            digit: Seq::empty(),
            ..st
        }
    } else if structural_token(b) is Some {
        LexState { tokens: st.tokens.push(structural_token(b).unwrap()), ..st }
    } else if b == QUOTE {
        LexState { in_string: true, ..st }
    } else if is_number_byte(b) {
        LexState { digit: st.digit.push(b as char), ..st }
    } else {
        st
    }
}

/// The tokenizer after `bytes`, started in `st`.
pub open spec fn lex_from(st: LexState, bytes: Seq<u8>, dec: Decoding) -> LexState
    decreases bytes.len(),
{
    if bytes.len() == 0 {
        st
    } else {
        lex_step(lex_from(st, bytes.drop_last(), dec), bytes.last(), dec)
    }
}

/// The tokens of a document. Digit text or a string that the input ends in
/// the middle of yields no token.
pub open spec fn tokenize(bytes: Seq<u8>, dec: Decoding) -> Seq<TokenView> {
    lex_from(LexState::start(), bytes, dec).tokens
}

/// Ends the pending number, if there is one: decodes the digit text, appends
/// a `Number` token where it decodes, and empties the buffer either way.
/// Digit text that does not decode is dropped, and tokenizing goes on.
pub fn handle_digit_termination<D: Fn(&str) -> Option<u64>>(
    output: &mut Vec<Token>,
    digit: &mut String,
    in_digit: &mut bool,
    decode: &D,
)
    requires
        forall|text: &str| call_requires(*decode, (text,)),
    ensures
        final(digit)@ == Seq::<char>::empty(),
        !*final(in_digit),
        forall|dec: Decoding| #[trigger]
            decodes_as(decode, dec) ==> token_views(final(output)@) == flush_number(
                token_views(old(output)@),
                old(digit)@,
                dec,
            ),
{
    if !digit.as_str().is_empty() {
        let decoded = decode(digit.as_str());
        if let Some(n) = decoded {
            output.push(Token::Number(n));
            assert(token_views(output@) == token_views(old(output)@).push(TokenView::Number(n)));
        }
        *digit = String::new();
    }
    *in_digit = false;
}

/// Reading one more byte is one more step.
pub proof fn lemma_lex_from_push(st: LexState, bytes: Seq<u8>, b: u8, dec: Decoding)
    ensures
        lex_from(st, bytes.push(b), dec) == lex_step(lex_from(st, bytes, dec), b, dec),
{
    assert(bytes.push(b).drop_last() == bytes);
}

/// Tokenizes the contents of a file.
///
/// `decode` turns digit text into the bit pattern of the number it stands
/// for, or into `None` where it stands for none: the library itself does
/// no floating-point arithmetic. For every function that `decode` behaves
/// as, the tokens are those of [`tokenize`].
pub fn parse_file<D: Fn(&str) -> Option<u64>>(bytes: &[u8], decode: D) -> (output: Vec<Token>)
    requires
        forall|text: &str| call_requires(decode, (text,)),
    ensures
        forall|dec: Decoding| #[trigger]
            decodes_as(&decode, dec) ==> token_views(output@) == tokenize(bytes@, dec),
{
    let mut output: Vec<Token> = Vec::new();

    let mut string = String::new();
    let mut in_string = false;

    let mut digit = String::new();
    let mut in_digit = false;

    let mut i: usize = 0;
    assert(bytes@.take(0) == Seq::<u8>::empty());
    assert(token_views(output@) == Seq::<TokenView>::empty());
    while i < bytes.len()
        invariant
            i <= bytes.len(),
            forall|text: &str| call_requires(decode, (text,)),
            forall|dec: Decoding| #[trigger]
                decodes_as(&decode, dec) ==> lex_from(LexState::start(), bytes@.take(i as int), dec)
                    == (LexState {
                    tokens: token_views(output@),
                    string: string@,
                    in_string,
                    digit: digit@,
                }),
        decreases bytes.len() - i,
    {
        let byte = bytes[i];
        let ghost before = LexState {
            tokens: token_views(output@),
            string: string@,
            in_string,
            digit: digit@,
        };
        proof {
            assert(bytes@.take(i + 1) == bytes@.take(i as int).push(byte));
            assert forall|dec: Decoding| #[trigger] decodes_as(&decode, dec) implies lex_from(
                LexState::start(),
                bytes@.take(i + 1),
                dec,
            ) == lex_step(before, byte, dec) by {
                lemma_lex_from_push(LexState::start(), bytes@.take(i as int), byte, dec);
            }
        }
        if in_string {
            if byte == QUOTE {
                output.push(Token::StringContent(string));
                string = String::new();
                in_string = false;
                assert(token_views(output@) == before.tokens.push(
                    TokenView::StringContent(before.string),
                ));
            } else {
                string.push(byte as char);
            }
        } else if byte == OPEN_BRACE {
            output.push(Token::OpenBrace);
            assert(token_views(output@) == before.tokens.push(TokenView::OpenBrace));
        } else if byte == CLOSE_BRACE {
            handle_digit_termination(&mut output, &mut digit, &mut in_digit, &decode);
            let ghost flushed = output@;
            output.push(Token::CloseBrace);
            assert(token_views(output@) == token_views(flushed).push(TokenView::CloseBrace));
        } else if byte == OPEN_BRACKET {
            output.push(Token::OpenBracket);
            assert(token_views(output@) == before.tokens.push(TokenView::OpenBracket));
        } else if byte == CLOSE_BRACKET {
            handle_digit_termination(&mut output, &mut digit, &mut in_digit, &decode);
            let ghost flushed = output@;
            output.push(Token::CloseBracket);
            assert(token_views(output@) == token_views(flushed).push(TokenView::CloseBracket));
        } else if byte == COLON {
            output.push(Token::Colon);
            assert(token_views(output@) == before.tokens.push(TokenView::Colon));
        } else if byte == COMMA {
            handle_digit_termination(&mut output, &mut digit, &mut in_digit, &decode);
            let ghost flushed = output@;
            output.push(Token::Comma);
            assert(token_views(output@) == token_views(flushed).push(TokenView::Comma));
        } else if byte == QUOTE {
            in_string = true;
        } else if is_number(byte) {
            digit.push(byte as char);
            in_digit = true;
        }
        i += 1;
    }
    assert(bytes@.take(i as int) == bytes@);
    output
}

} // verus!
