//! The lexer: from the text of a document to its tokens.
//!
//! Tokens borrow their text from the document; nothing is copied.
//! Integers are parsed while the text is read. A float keeps the text of
//! its literal.
use vstd::prelude::*;
use vstd::slice::slice_subrange;
use vstd::string::StringSliceAdditionalSpecFns;
use vstd::utf8::*;
use crate::ascii::{
    BACKSLASH, BRACE_CLOSE, BRACE_OPEN, BRACKET_CLOSE, BRACKET_OPEN, CARRIAGE_RETURN, COMMA,
    DIGIT_0, DIGIT_1, DIGIT_7, DIGIT_9, EQUALS, FORM_FEED, GREATER, HASH, LESS, LINE_FEED, LOWER_A,
    LOWER_B, LOWER_E, LOWER_F, LOWER_L, LOWER_N, LOWER_O, LOWER_R, LOWER_S, LOWER_T, LOWER_U,
    LOWER_X, MINUS, PAREN_CLOSE, PAREN_OPEN, PLUS, POINT, QUOTE, SEMICOLON, SLASH, SPACE, STAR,
    TAB, UNDERSCORE, UPPER_A, UPPER_E, UPPER_F, UPPER_X,
};
use crate::grammar::{
    escapable_at, exponent_end, find_from, float_end, has_byte, has_byte_in, has_pair,
    ident_byte,
    integer_token, is_digit, is_first_occurrence, is_hex_digit, is_reserved,
    lemma_find_from_bounds, lemma_find_from_is_first, lemma_run_end_bounds,
    lemma_skip_trivia_bounds, lexical_integer, newline_len, number_at, paren_at, raw_closing,
    run_end, skip_trivia, space_len, string_at, token_at, tokens_from, tokens_of, trivia_len,
    unit_len, word_at, word_token, ByteClass, TokenView, BIN_FORMAT, DEC_FORMAT, HEX_FORMAT,
    OCT_FORMAT,
};
use crate::text::{lemma_boundary, lemma_char_boundaries, slice_str};

verus! {

/// A token of a document.
#[derive(Debug, Clone, Copy, PartialEq, Eq)]
pub enum Token<'input> {
    /// `{`
    BlockOpen,
    /// `}`
    BlockClose,
    /// `(` that opens no type annotation
    ParenOpen,
    /// `)`
    ParenClose,
    /// `true`
    True,
    /// `false`
    False,
    /// `=`
    Equals,
    /// `/-`
    SlashDash,
    /// `;`
    Semicolon,
    /// `null`
    Null,
    /// `\`
    Backslash,
    /// One or more line breaks
    Newline,
    /// A quoted string that holds escapes, without its quotes
    StringWithEscapes(&'input str),
    /// A raw string, or a quoted string that holds no escape, without its
    /// delimiters
    StringWithNoEscapes(&'input str),
    /// The text of a float literal
    Float(&'input str),
    /// An integer literal, decimal or with a radix prefix
    Integer(i64),
    /// A type annotation, without its parentheses
    TyDescriptor(&'input str),
    /// A bare word
    Identifier(&'input str),
    /// Text that is no token
    Error,
}

impl<'input> View for Token<'input> {
    type V = TokenView;

    open spec fn view(&self) -> TokenView {
        match *self {
            Token::BlockOpen => TokenView::BlockOpen,
            Token::BlockClose => TokenView::BlockClose,
            Token::ParenOpen => TokenView::ParenOpen,
            Token::ParenClose => TokenView::ParenClose,
            Token::True => TokenView::True,
            Token::False => TokenView::False,
            Token::Equals => TokenView::Equals,
            Token::SlashDash => TokenView::SlashDash,
            Token::Semicolon => TokenView::Semicolon,
            Token::Null => TokenView::Null,
            Token::Backslash => TokenView::Backslash,
            Token::Newline => TokenView::Newline,
            Token::StringWithEscapes(s) => TokenView::StringWithEscapes(s@),
            Token::StringWithNoEscapes(s) => TokenView::StringWithNoEscapes(s@),
            Token::Float(s) => TokenView::Float(s@),
            Token::Integer(v) => TokenView::Integer(v),
            Token::TyDescriptor(s) => TokenView::TyDescriptor(s@),
            Token::Identifier(s) => TokenView::Identifier(s@),
            Token::Error => TokenView::Error,
        }
    }
}

/// `lexical::parse_with_options` for `i64`, with the default options: what
/// the number parser makes of `digits` under the syntax `FORMAT`. The
/// contract only names that result; an error of the parser becomes `None`.
#[verifier::external_body]
fn parse_integer<const FORMAT: u128>(digits: &[u8]) -> (r: Option<i64>)
    ensures
        r == lexical_integer(FORMAT, digits@),
{
    lexical::parse_with_options::<i64, _, FORMAT>(digits, &lexical::ParseIntegerOptions::new()).ok()
}

/// `memchr::memmem::find`: the index of the first occurrence of `needle`
/// in `haystack`, `None` where there is none.
pub assume_specification[ memchr::memmem::find ](
    haystack: &[u8],
    needle: &[u8],
) -> (r: Option<usize>)
    ensures
        match r {
            Some(i) => is_first_occurrence(haystack@, needle@, Some(i as int)),
            None => is_first_occurrence(haystack@, needle@, None),
        },
;

impl<'input> Token<'input> {
    /// The token for the digits of an integer literal, given what the
    /// number parser made of them: an error token if it rejected them.
    pub fn from_parsed_integer(parsed: Option<i64>) -> (r: Token<'input>)
        ensures
            r@ == integer_token(parsed),
            r == match parsed {
                Some(v) => Token::Integer(v),
                None => Token::Error,
            },
    {
        match parsed {
            Some(v) => Token::Integer(v),
            None => Token::Error,
        }
    }
}

/// Whether the byte at `i + k` is `c`.
fn byte_is(bytes: &[u8], i: usize, k: usize, c: u8) -> (r: bool)
    requires
        i <= bytes@.len(),
    ensures
        r == has_byte(bytes@, i + k, c),
        r ==> i + k < usize::MAX,
{
    k < bytes.len() - i && bytes[i + k] == c
}

/// Whether there is a byte at `i + k` and it lies between `lo` and `hi`.
fn byte_in(bytes: &[u8], i: usize, k: usize, lo: u8, hi: u8) -> (r: bool)
    requires
        i <= bytes@.len(),
    ensures
        r == has_byte_in(bytes@, i + k, lo, hi),
        r ==> i + k < usize::MAX,
{
    k < bytes.len() - i && lo <= bytes[i + k] && bytes[i + k] <= hi
}

fn digit(c: u8) -> (r: bool)
    ensures
        r == is_digit(c),
{
    DIGIT_0 <= c && c <= DIGIT_9
}

fn reserved(c: u8) -> (r: bool)
    ensures
        r == is_reserved(c),
{
    c <= SPACE || c == SLASH || c == BACKSLASH || c == PAREN_OPEN || c == PAREN_CLOSE
        || c == BRACE_OPEN || c == BRACE_CLOSE || c == LESS || c == GREATER || c == SEMICOLON
        || c == BRACKET_OPEN || c == BRACKET_CLOSE || c == EQUALS || c == COMMA || c == QUOTE
}

fn hex_digit(c: u8) -> (r: bool)
    ensures
        r == is_hex_digit(c),
{
    digit(c) || (LOWER_A <= c && c <= LOWER_F) || (UPPER_A <= c && c <= UPPER_F)
}

fn escapable(bytes: &[u8], i: usize) -> (r: bool)
    requires
        i < bytes@.len(),
    ensures
        r == escapable_at(bytes@, i + 1),
{
    byte_is(bytes, i, 1, LOWER_T) || byte_is(bytes, i, 1, LOWER_U) || byte_is(bytes, i, 1, LOWER_N)
        || byte_is(bytes, i, 1, QUOTE)
}

/// Whether the bytes `x` and `y` stand at `i` and behind it.
fn pair_is(bytes: &[u8], i: usize, x: u8, y: u8) -> (r: bool)
    requires
        i <= bytes@.len(),
    ensures
        r == has_pair(bytes@, i as int, x, y),
        r ==> i + 1 < usize::MAX,
{
    byte_is(bytes, i, 0, x) && byte_is(bytes, i, 1, y)
}

fn newline_width(bytes: &[u8], i: usize) -> (r: usize)
    requires
        i <= bytes@.len(),
    ensures
        r == newline_len(bytes@, i as int),
        r <= bytes@.len() - i,
{
    if byte_is(bytes, i, 0, LINE_FEED) || byte_in(bytes, i, 0, FORM_FEED, CARRIAGE_RETURN) {
        1
    } else if pair_is(bytes, i, 0xC2, 0x85) {
        2
    } else if pair_is(bytes, i, 0xE2, 0x80) && byte_in(bytes, i, 2, 0xA8, 0xA9) {
        3
    } else {
        0
    }
}

fn space_width(bytes: &[u8], i: usize) -> (r: usize)
    requires
        i <= bytes@.len(),
    ensures
        r == space_len(bytes@, i as int),
        r <= bytes@.len() - i,
{
    if byte_is(bytes, i, 0, TAB) || byte_is(bytes, i, 0, SPACE) {
        1
    } else if pair_is(bytes, i, 0xC2, 0xA0) {
        2
    } else if pair_is(bytes, i, 0xE1, 0x9A) && byte_is(bytes, i, 2, 0x80) {
        3
    } else if pair_is(bytes, i, 0xE2, 0x80) && byte_in(bytes, i, 2, 0x80, 0x8A) {
        3
    } else if pair_is(bytes, i, 0xE2, 0x80) && byte_is(bytes, i, 2, 0xAF) {
        3
    } else if pair_is(bytes, i, 0xE2, 0x81) && byte_is(bytes, i, 2, 0x9F) {
        3
    } else if pair_is(bytes, i, 0xE3, 0x80) && byte_is(bytes, i, 2, 0x80) {
        3
    } else {
        0
    }
}

fn ident_at(bytes: &[u8], i: usize) -> (r: bool)
    requires
        i <= bytes@.len(),
    ensures
        r == ident_byte(bytes@, i as int),
{
    i < bytes.len() && !reserved(bytes[i]) && newline_width(bytes, i) == 0 && space_width(bytes, i)
        == 0
}

/// The number of bytes that a run of the class `cls` takes in one step
/// at `i`.
fn unit_width(cls: ByteClass, bytes: &[u8], i: usize) -> (r: usize)
    requires
        i <= bytes@.len(),
    ensures
        r == unit_len(cls, bytes@, i as int),
        r <= bytes@.len() - i,
{
    if i >= bytes.len() {
        return 0;
    }
    let c = bytes[i];
    let inside = match cls {
        ByteClass::Ident => ident_at(bytes, i),
        ByteClass::TypeName => !reserved(c),
        ByteClass::Digit => digit(c),
        ByteClass::DecimalDigit => digit(c) || c == UNDERSCORE,
        ByteClass::HexDigit => hex_digit(c) || c == UNDERSCORE,
        ByteClass::OctalDigit => (DIGIT_0 <= c && c <= DIGIT_7) || c == UNDERSCORE,
        ByteClass::BinaryDigit => c == DIGIT_0 || c == DIGIT_1 || c == UNDERSCORE,
        ByteClass::Hash => c == HASH,
        ByteClass::Plain => c != QUOTE && c != BACKSLASH,
        ByteClass::Escaped => {
            if c == BACKSLASH {
                return if escapable(bytes, i) {
                    2
                } else {
                    0
                };
            }
            c != QUOTE
        },
        ByteClass::NotLineFeed => c != LINE_FEED,
        ByteClass::Newline => {
            return newline_width(bytes, i);
        },
        ByteClass::Space => {
            return space_width(bytes, i);
        },
    };
    if inside {
        1
    } else {
        0
    }
}

/// Where the longest run of the class `cls` that begins at `i` ends.
fn scan_run(cls: ByteClass, bytes: &[u8], i: usize) -> (r: usize)
    requires
        i <= bytes@.len(),
    ensures
        r == run_end(cls, bytes@, i as int),
        i <= r <= bytes@.len(),
{
    assert(bytes@.len() == bytes.len());
    let mut j: usize = i;
    loop
        invariant
            i <= j <= bytes@.len() <= usize::MAX,
            run_end(cls, bytes@, i as int) == run_end(cls, bytes@, j as int),
        decreases bytes@.len() - j,
    {
        let n = unit_width(cls, bytes, j);
        if n == 0 {
            return j;
        }
        j = j + n;
    }
}

/// The first place at or behind `from` at which `needle` stands in
/// `bytes`, counted from `from`.
fn find_in(bytes: &[u8], from: usize, needle: &[u8]) -> (r: Option<usize>)
    requires
        from <= bytes@.len(),
    ensures
        match r {
            Some(k) => find_from(bytes@.subrange(from as int, bytes@.len() as int), needle@, 0)
                == Some(k as int) && from + k + needle@.len() <= bytes@.len(),
            None => find_from(bytes@.subrange(from as int, bytes@.len() as int), needle@, 0)
                is None,
        },
{
    let rest = slice_subrange(bytes, from, bytes.len());
    let r = memchr::memmem::find(rest, needle);
    proof {
        let found = match r {
            Some(i) => Some(i as int),
            None => None,
        };
        lemma_find_from_is_first(rest@, needle@, 0, found);
    }
    r
}

/// Whether the run of `cls` is made of whole characters, so that it ends
/// on a character boundary wherever it began on one.
pub open spec fn whole_chars(cls: ByteClass) -> bool {
    ||| cls == ByteClass::Digit
    ||| cls == ByteClass::DecimalDigit
    ||| cls == ByteClass::HexDigit
    ||| cls == ByteClass::OctalDigit
    ||| cls == ByteClass::BinaryDigit
    ||| cls == ByteClass::Hash
    ||| cls == ByteClass::Newline
    ||| cls == ByteClass::Space
}

/// A run of whole characters that begins on a character boundary ends on
/// one.
pub proof fn lemma_run_boundary(cls: ByteClass, b: Seq<u8>, i: int)
    requires
        valid_utf8(b),
        0 <= i <= b.len(),
        is_char_boundary(b, i),
        whole_chars(cls),
    ensures
        is_char_boundary(b, run_end(cls, b, i)),
    decreases b.len() - i,
{
    if unit_len(cls, b, i) > 0 {
        lemma_char_boundaries(b, i);
        lemma_run_boundary(cls, b, i + unit_len(cls, b, i));
    }
}

/// Behind an ASCII byte there is a character boundary, and in front of it.
pub proof fn lemma_ascii_boundaries(b: Seq<u8>, i: int)
    requires
        valid_utf8(b),
        0 <= i < b.len(),
        b[i] < 0x80,
    ensures
        is_char_boundary(b, i),
        is_char_boundary(b, i + 1),
{
    lemma_char_boundaries(b, i);
}

/// Where an exponent ends is a character boundary, if where it could
/// begin is one.
pub proof fn lemma_exponent_end_boundary(b: Seq<u8>, q: int)
    requires
        valid_utf8(b),
        0 <= q <= b.len(),
        is_char_boundary(b, q),
    ensures
        is_char_boundary(b, exponent_end(b, q)),
{
    if has_byte(b, q, LOWER_E) || has_byte(b, q, UPPER_E) {
        lemma_ascii_boundaries(b, q);
        if has_byte(b, q + 1, PLUS) || has_byte(b, q + 1, MINUS) {
            lemma_ascii_boundaries(b, q + 1);
            lemma_run_boundary(ByteClass::Digit, b, q + 2);
        } else {
            lemma_run_boundary(ByteClass::Digit, b, q + 1);
        }
    }
}

/// Where a float ends is a character boundary, if where it could begin
/// is one.
pub proof fn lemma_float_end_boundary(b: Seq<u8>, i: int)
    requires
        valid_utf8(b),
        0 <= i <= b.len(),
        is_char_boundary(b, i),
    ensures
        is_char_boundary(b, float_end(b, i)),
{
    let p = run_end(ByteClass::Digit, b, i);
    lemma_run_end_bounds(ByteClass::Digit, b, i);
    lemma_run_boundary(ByteClass::Digit, b, i);
    if has_byte(b, p, POINT) {
        lemma_ascii_boundaries(b, p);
        let q = run_end(ByteClass::Digit, b, p + 1);
        lemma_run_end_bounds(ByteClass::Digit, b, p + 1);
        lemma_run_boundary(ByteClass::Digit, b, p + 1);
        lemma_exponent_end_boundary(b, q);
    } else {
        lemma_exponent_end_boundary(b, p);
    }
}

/// Where the exponent that begins at `q` ends.
fn scan_exponent(bytes: &[u8], q: usize) -> (r: usize)
    requires
        q <= bytes@.len(),
    ensures
        r == exponent_end(bytes@, q as int),
        q <= r <= bytes@.len(),
{
    if byte_is(bytes, q, 0, LOWER_E) || byte_is(bytes, q, 0, UPPER_E) {
        let s = if byte_is(bytes, q, 1, PLUS) || byte_is(bytes, q, 1, MINUS) {
            q + 2
        } else {
            q + 1
        };
        let x = scan_run(ByteClass::Digit, bytes, s);
        if x > s {
            x
        } else {
            q
        }
    } else {
        q
    }
}

/// Where the text of a float that begins at `i` ends; `i` where none
/// begins.
fn scan_float(bytes: &[u8], i: usize) -> (r: usize)
    requires
        i <= bytes@.len(),
    ensures
        r == float_end(bytes@, i as int),
        i <= r <= bytes@.len(),
{
    let p = scan_run(ByteClass::Digit, bytes, i);
    if byte_is(bytes, p, 0, POINT) {
        let q = scan_run(ByteClass::Digit, bytes, p + 1);
        if q > p + 1 {
            scan_exponent(bytes, q)
        } else {
            i
        }
    } else if p > i {
        let x = scan_exponent(bytes, p);
        if x > p {
            x
        } else {
            i
        }
    } else {
        i
    }
}

/// What every function that reads one token promises: the token and its
/// end are those of the grammar rule `rule`, the token took at least one
/// byte, and it ends on a character boundary inside the text.
pub open spec fn reads<'a>(
    r: (Token<'a>, usize),
    rule: (TokenView, int),
    b: Seq<u8>,
    i: int,
) -> bool {
    &&& r.0@ == rule.0
    &&& r.1 == rule.1
    &&& i < r.1 <= b.len()
    &&& is_char_boundary(b, r.1 as int)
}

/// Reads the number that begins with the digit at `i`.
fn lex_number<'a>(input: &'a str, i: usize) -> (r: (Token<'a>, usize))
    requires
        i < input.spec_bytes().len(),
        is_digit(input.spec_bytes()[i as int]),
    ensures
        reads(r, number_at(input.spec_bytes(), i as int), input.spec_bytes(), i as int),
{
    let bytes = input.as_bytes();
    let ghost b = bytes@;
    proof {
        encode_utf8_valid_utf8(input@);
        lemma_ascii_boundaries(b, i as int);
    }
    if pair_is(bytes, i, DIGIT_0, LOWER_X) || pair_is(bytes, i, DIGIT_0, UPPER_X) {
        let h = scan_run(ByteClass::HexDigit, bytes, i + 2);
        if h > i + 2 {
            proof {
                lemma_ascii_boundaries(b, i + 1);
                lemma_run_boundary(ByteClass::HexDigit, b, i + 2);
            }
            let parsed = parse_integer::<HEX_FORMAT>(slice_subrange(bytes, i + 2, h));
            return (Token::from_parsed_integer(parsed), h);
        }
    }
    if pair_is(bytes, i, DIGIT_0, LOWER_O) {
        let o = scan_run(ByteClass::OctalDigit, bytes, i + 2);
        if o > i + 2 {
            proof {
                lemma_ascii_boundaries(b, i + 1);
                lemma_run_boundary(ByteClass::OctalDigit, b, i + 2);
            }
            let parsed = parse_integer::<OCT_FORMAT>(slice_subrange(bytes, i + 2, o));
            return (Token::from_parsed_integer(parsed), o);
        }
    }
    if pair_is(bytes, i, DIGIT_0, LOWER_B) {
        let n = scan_run(ByteClass::BinaryDigit, bytes, i + 2);
        if n > i + 2 {
            proof {
                lemma_ascii_boundaries(b, i + 1);
                lemma_run_boundary(ByteClass::BinaryDigit, b, i + 2);
            }
            let parsed = parse_integer::<BIN_FORMAT>(slice_subrange(bytes, i + 2, n));
            return (Token::from_parsed_integer(parsed), n);
        }
    }
    let f = scan_float(bytes, i);
    if f > i {
        proof {
            lemma_float_end_boundary(b, i as int);
        }
        return (Token::Float(slice_str(input, i, f)), f);
    }
    let d = scan_run(ByteClass::DecimalDigit, bytes, i);
    proof {
        lemma_run_end_bounds(ByteClass::DecimalDigit, b, i as int);
        lemma_run_boundary(ByteClass::DecimalDigit, b, i as int);
    }
    let parsed = parse_integer::<DEC_FORMAT>(slice_subrange(bytes, i, d));
    (Token::from_parsed_integer(parsed), d)
}

/// The delimiter that closes a raw string opened with `hashes` hashes.
fn closing_delimiter(hashes: usize) -> (r: Vec<u8>)
    requires
        hashes < usize::MAX,
    ensures
        r@ == raw_closing(hashes as int),
{
    let mut v: Vec<u8> = Vec::new();
    v.push(QUOTE);
    let mut k: usize = 0;
    while k < hashes
        invariant
            k <= hashes,
            v@.len() == k + 1,
            v@[0] == QUOTE,
            forall|j: int| 1 <= j <= k ==> v@[j] == HASH,
        decreases hashes - k,
    {
        v.push(HASH);
        k = k + 1;
    }
    assert(v@ =~= raw_closing(hashes as int));
    v
}

/// The token of the word between `i` and `e`: a keyword or an
/// identifier.
fn word<'a>(input: &'a str, i: usize, e: usize) -> (r: Token<'a>)
    requires
        i < e <= input.spec_bytes().len(),
        is_char_boundary(input.spec_bytes(), i as int),
        is_char_boundary(input.spec_bytes(), e as int),
    ensures
        r@ == word_token(input.spec_bytes(), i as int, e as int),
{
    let bytes = input.as_bytes();
    let ghost w = bytes@.subrange(i as int, e as int);
    if e - i == 4 {
        assert(w[0] == bytes@[i as int] && w[1] == bytes@[i + 1] && w[2] == bytes@[i + 2] && w[3]
            == bytes@[i + 3]);
        if bytes[i] == LOWER_T && bytes[i + 1] == LOWER_R && bytes[i + 2] == LOWER_U && bytes[i + 3]
            == LOWER_E {
            assert(w =~= seq![LOWER_T, LOWER_R, LOWER_U, LOWER_E]);
            return Token::True;
        }
        if bytes[i] == LOWER_N && bytes[i + 1] == LOWER_U && bytes[i + 2] == LOWER_L && bytes[i + 3]
            == LOWER_L {
            assert(w =~= seq![LOWER_N, LOWER_U, LOWER_L, LOWER_L]);
            return Token::Null;
        }
    }
    if e - i == 5 {
        assert(w[0] == bytes@[i as int] && w[1] == bytes@[i + 1] && w[2] == bytes@[i + 2] && w[3]
            == bytes@[i + 3] && w[4] == bytes@[i + 4]);
        if bytes[i] == LOWER_F && bytes[i + 1] == LOWER_A && bytes[i + 2] == LOWER_L
            && bytes[i + 3] == LOWER_S && bytes[i + 4] == LOWER_E {
            assert(w =~= seq![LOWER_F, LOWER_A, LOWER_L, LOWER_S, LOWER_E]);
            return Token::False;
        }
    }
    Token::Identifier(slice_str(input, i, e))
}

/// Reads the token that begins with the identifier byte at `i`.
fn lex_word<'a>(input: &'a str, i: usize) -> (r: (Token<'a>, usize))
    requires
        i < input.spec_bytes().len(),
        ident_byte(input.spec_bytes(), i as int),
        is_char_boundary(input.spec_bytes(), i as int),
    ensures
        reads(r, word_at(input.spec_bytes(), i as int), input.spec_bytes(), i as int),
{
    let bytes = input.as_bytes();
    let ghost b = bytes@;
    proof {
        encode_utf8_valid_utf8(input@);
        lemma_run_end_bounds(ByteClass::Ident, b, i as int);
        lemma_run_end_bounds(ByteClass::DecimalDigit, b, i as int);
    }
    let e = scan_run(ByteClass::Ident, bytes, i);
    proof {
        lemma_boundary(b, e as int);
    }
    if bytes[i] == LOWER_R {
        let h = scan_run(ByteClass::Hash, bytes, i + 1);
        if byte_is(bytes, h, 0, QUOTE) {
            let closing = closing_delimiter(h - i - 1);
            proof {
                lemma_ascii_boundaries(b, h as int);
            }
            match find_in(bytes, h + 1, closing.as_slice()) {
                Some(k) => {
                    let end = h + 1 + k + closing.len();
                    proof {
                        let rest = b.subrange(h + 1, b.len() as int);
                        lemma_find_from_bounds(rest, closing@, 0);
                        let hit = rest.subrange(k as int, k + closing@.len());
                        assert(hit[0] == closing@[0]);
                        assert(b[h + 1 + k] == QUOTE);
                        lemma_ascii_boundaries(b, h + 1 + k);
                        assert(hit[closing@.len() - 1] == closing@[closing@.len() - 1]);
                        assert(b[end - 1] < 0x80);
                        lemma_ascii_boundaries(b, end - 1);
                    }
                    return (Token::StringWithNoEscapes(slice_str(input, h + 1, h + 1 + k)), end);
                },
                None => {
                    return (Token::Error, h + 1);
                },
            }
        }
    }
    if bytes[i] == UNDERSCORE && scan_run(ByteClass::DecimalDigit, bytes, i) == e {
        let parsed = parse_integer::<DEC_FORMAT>(slice_subrange(bytes, i, e));
        return (Token::from_parsed_integer(parsed), e);
    }
    if bytes[i] == POINT && scan_float(bytes, i) == e {
        return (Token::Error, e);
    }
    (word(input, i, e), e)
}

/// Reads the token that begins with the quote at `i`.
fn lex_string<'a>(input: &'a str, i: usize) -> (r: (Token<'a>, usize))
    requires
        has_byte(input.spec_bytes(), i as int, QUOTE),
    ensures
        reads(r, string_at(input.spec_bytes(), i as int), input.spec_bytes(), i as int),
{
    let bytes = input.as_bytes();
    let ghost b = bytes@;
    proof {
        encode_utf8_valid_utf8(input@);
        lemma_ascii_boundaries(b, i as int);
        assert(b.len() == bytes.len());
    }
    let p = scan_run(ByteClass::Plain, bytes, i + 1);
    if byte_is(bytes, p, 0, QUOTE) {
        proof {
            lemma_ascii_boundaries(b, p as int);
        }
        return (Token::StringWithNoEscapes(slice_str(input, i + 1, p)), p + 1);
    }
    let q = scan_run(ByteClass::Escaped, bytes, i + 1);
    if byte_is(bytes, q, 0, QUOTE) {
        proof {
            lemma_ascii_boundaries(b, q as int);
        }
        return (Token::StringWithEscapes(slice_str(input, i + 1, q)), q + 1);
    }
    (Token::Error, i + 1)
}

/// Reads the token that begins with the `(` at `i`.
fn lex_paren<'a>(input: &'a str, i: usize) -> (r: (Token<'a>, usize))
    requires
        has_byte(input.spec_bytes(), i as int, PAREN_OPEN),
    ensures
        reads(r, paren_at(input.spec_bytes(), i as int), input.spec_bytes(), i as int),
{
    let bytes = input.as_bytes();
    let ghost b = bytes@;
    proof {
        encode_utf8_valid_utf8(input@);
        lemma_ascii_boundaries(b, i as int);
        assert(b.len() == bytes.len());
    }
    let e = scan_run(ByteClass::TypeName, bytes, i + 1);
    if e > i + 1 && !digit(bytes[i + 1]) && byte_is(bytes, e, 0, PAREN_CLOSE) {
        proof {
            lemma_ascii_boundaries(b, e as int);
        }
        return (Token::TyDescriptor(slice_str(input, i + 1, e)), e + 1);
    }
    (Token::ParenOpen, i + 1)
}

/// Reads the token that begins at `i`.
fn lex_token<'a>(input: &'a str, i: usize) -> (r: (Token<'a>, usize))
    requires
        i < input.spec_bytes().len(),
        is_char_boundary(input.spec_bytes(), i as int),
        space_len(input.spec_bytes(), i as int) == 0,
    ensures
        reads(r, token_at(input.spec_bytes(), i as int), input.spec_bytes(), i as int),
{
    let bytes = input.as_bytes();
    let ghost b = bytes@;
    proof {
        encode_utf8_valid_utf8(input@);
        lemma_boundary(b, i as int);
        lemma_char_boundaries(b, i as int);
    }
    let c = bytes[i];
    if c == BRACE_OPEN {
        (Token::BlockOpen, i + 1)
    } else if c == BRACE_CLOSE {
        (Token::BlockClose, i + 1)
    } else if c == PAREN_CLOSE {
        (Token::ParenClose, i + 1)
    } else if c == EQUALS {
        (Token::Equals, i + 1)
    } else if c == SEMICOLON {
        (Token::Semicolon, i + 1)
    } else if c == BACKSLASH {
        (Token::Backslash, i + 1)
    } else if c == PAREN_OPEN {
        lex_paren(input, i)
    } else if c == QUOTE {
        lex_string(input, i)
    } else if c == SLASH {
        if byte_is(bytes, i, 1, MINUS) {
            proof {
                lemma_ascii_boundaries(b, i + 1);
            }
            (Token::SlashDash, i + 2)
        } else {
            (Token::Error, i + 1)
        }
    } else if digit(c) {
        lex_number(input, i)
    } else if newline_width(bytes, i) > 0 {
        proof {
            lemma_run_end_bounds(ByteClass::Newline, b, i as int);
            lemma_run_boundary(ByteClass::Newline, b, i as int);
        }
        (Token::Newline, scan_run(ByteClass::Newline, bytes, i))
    } else if ident_at(bytes, i) {
        lex_word(input, i)
    } else {
        assert(c < 0x80);
        (Token::Error, i + 1)
    }
}

/// The number of bytes of the whitespace or the comment that begins at
/// `i`.
fn trivia_width(bytes: &[u8], i: usize) -> (r: usize)
    requires
        i <= bytes@.len(),
        valid_utf8(bytes@),
        is_char_boundary(bytes@, i as int),
    ensures
        r == trivia_len(bytes@, i as int),
        i + r <= bytes@.len(),
        is_char_boundary(bytes@, i + r),
        r == 0 ==> space_len(bytes@, i as int) == 0,
{
    let ghost b = bytes@;
    if space_width(bytes, i) > 0 {
        proof {
            lemma_run_end_bounds(ByteClass::Space, b, i as int);
            lemma_run_boundary(ByteClass::Space, b, i as int);
        }
        scan_run(ByteClass::Space, bytes, i) - i
    } else if pair_is(bytes, i, SLASH, STAR) {
        let end: [u8; 2] = [STAR, SLASH];
        let needle = end.as_slice();
        assert(needle@ =~= seq![STAR, SLASH]);
        match find_in(bytes, i + 2, needle) {
            Some(k) => {
                proof {
                    assert(b.len() == bytes.len());
                    let rest = b.subrange(i + 2, b.len() as int);
                    lemma_find_from_bounds(rest, needle@, 0);
                    let hit = rest.subrange(k as int, k + 2);
                    assert(hit[1] == needle@[1]);
                    assert(b[i + k + 3] == SLASH);
                    lemma_ascii_boundaries(b, i + k + 3);
                }
                k + 4
            },
            None => {
                proof {
                    lemma_ascii_boundaries(b, i + 1);
                }
                2
            },
        }
    } else if pair_is(bytes, i, SLASH, SLASH) {
        let e = scan_run(ByteClass::NotLineFeed, bytes, i + 2);
        if byte_is(bytes, e, 0, LINE_FEED) {
            proof {
                lemma_ascii_boundaries(b, e as int);
            }
            e + 1 - i
        } else {
            0
        }
    } else {
        0
    }
}

/// Where the next token begins, from `i` on.
fn skip<'a>(input: &'a str, i: usize) -> (r: usize)
    requires
        i <= input.spec_bytes().len(),
        is_char_boundary(input.spec_bytes(), i as int),
    ensures
        r == skip_trivia(input.spec_bytes(), i as int),
        i <= r <= input.spec_bytes().len(),
        is_char_boundary(input.spec_bytes(), r as int),
        space_len(input.spec_bytes(), r as int) == 0,
{
    let bytes = input.as_bytes();
    proof {
        encode_utf8_valid_utf8(input@);
    }
    let mut j: usize = i;
    loop
        invariant
            bytes@ == input.spec_bytes(),
            valid_utf8(bytes@),
            i <= j <= bytes@.len(),
            is_char_boundary(bytes@, j as int),
            skip_trivia(bytes@, i as int) == skip_trivia(bytes@, j as int),
        decreases bytes@.len() - j,
    {
        if j >= bytes.len() {
            return j;
        }
        let n = trivia_width(bytes, j);
        if n == 0 {
            return j;
        }
        j = j + n;
    }
}

/// The tokens of `ts`, each with its text as characters.
pub open spec fn views<'a>(ts: Seq<Token<'a>>) -> Seq<TokenView> {
    Seq::new(ts.len(), |k: int| ts[k]@)
}

/// A reader of the tokens of a document, one per call.
pub struct Lexer<'a> {
    input: &'a str,
    pos: usize,
}

impl<'a> Lexer<'a> {
    #[verifier::type_invariant]
    spec fn inv(self) -> bool {
        self.pos <= self.input.spec_bytes().len() && is_char_boundary(
            self.input.spec_bytes(),
            self.pos as int,
        )
    }

    /// The UTF-8 bytes of the document.
    pub closed spec fn bytes(self) -> Seq<u8> {
        self.input.spec_bytes()
    }

    /// The byte offset up to which the document has been read.
    pub closed spec fn offset(self) -> int {
        self.pos as int
    }

    /// A reader at the start of `input`.
    pub fn new(input: &'a str) -> (r: Lexer<'a>)
        ensures
            r.bytes() == input.spec_bytes(),
            r.offset() == 0,
    {
        proof {
            encode_utf8_valid_utf8(input@);
            is_char_boundary_start_end_of_seq(input.spec_bytes());
        }
        Lexer { input, pos: 0 }
    }

    /// The next token, `None` at the end of the document.
    pub fn next(&mut self) -> (r: Option<Token<'a>>)
        ensures
            final(self).bytes() == old(self).bytes(),
            old(self).offset() <= final(self).offset() <= old(self).bytes().len(),
            r is Some ==> old(self).offset() < final(self).offset(),
            ({
                let b = old(self).bytes();
                let j = skip_trivia(b, old(self).offset());
                if j < b.len() {
                    r is Some && r.unwrap()@ == token_at(b, j).0 && final(self).offset()
                        == token_at(b, j).1
                } else {
                    r is None && final(self).offset() == j
                }
            }),
            tokens_from(old(self).bytes(), old(self).offset()) == match r {
                Some(t) => seq![t@] + tokens_from(final(self).bytes(), final(self).offset()),
                None => Seq::<TokenView>::empty(),
            },
    {
        proof {
            use_type_invariant(&*self);
            lemma_skip_trivia_bounds(self.input.spec_bytes(), self.pos as int);
        }
        let j = skip(self.input, self.pos);
        if j >= self.input.as_bytes().len() {
            self.pos = j;
            return None;
        }
        let (token, end) = lex_token(self.input, j);
        self.pos = end;
        Some(token)
    }
}

impl<'input> Token<'input> {
    /// A reader of the tokens of `input`.
    pub fn lexer(input: &'input str) -> (r: Lexer<'input>)
        ensures
            r.bytes() == input.spec_bytes(),
            r.offset() == 0,
    {
        Lexer::new(input)
    }
}

/// All tokens of `input`, in their order.
pub fn tokenize<'a>(input: &'a str) -> (r: Vec<Token<'a>>)
    ensures
        views(r@) == tokens_of(input.spec_bytes()),
{
    let mut lexer = Lexer::new(input);
    let mut tokens: Vec<Token<'a>> = Vec::new();
    assert(views(tokens@) + tokens_from(lexer.bytes(), lexer.offset()) =~= tokens_of(
        input.spec_bytes(),
    ));
    loop
        invariant
            lexer.bytes() == input.spec_bytes(),
            views(tokens@) + tokens_from(lexer.bytes(), lexer.offset()) == tokens_of(
                input.spec_bytes(),
            ),
            0 <= lexer.offset() <= lexer.bytes().len(),
        decreases lexer.bytes().len() - lexer.offset(),
    {
        let ghost before = views(tokens@);
        let ghost rest = tokens_from(lexer.bytes(), lexer.offset());
        match lexer.next() {
            None => {
                assert(views(tokens@) + Seq::<TokenView>::empty() =~= views(tokens@));
                return tokens;
            },
            Some(token) => {
                tokens.push(token);
                assert(views(tokens@) =~= before + seq![token@]);
                assert(before + (seq![token@] + tokens_from(lexer.bytes(), lexer.offset()))
                    =~= views(tokens@) + tokens_from(lexer.bytes(), lexer.offset()));
            },
        }
    }
}

} // verus!
