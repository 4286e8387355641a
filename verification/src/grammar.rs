//! The lexical grammar, stated over the UTF-8 bytes of a document.
//!
//! A document is read from left to right. At each place whitespace and
//! comments are skipped first ([`skip_trivia`]); what follows is one token
//! ([`token_at`]), and the reading goes on behind it ([`tokens_from`]).
//! Where several rules could apply, the one that takes the most bytes
//! wins, and among those a keyword or a number wins over an identifier.
//!
//! The grammar never looks inside a character: every byte that it tests
//! for is either ASCII or the first byte of a whitespace or line-break
//! character, and in UTF-8 neither can occur inside another character.
use vstd::prelude::*;
use crate::ascii::{
    BACKSLASH, BRACE_CLOSE, BRACE_OPEN, BRACKET_CLOSE, BRACKET_OPEN, CARRIAGE_RETURN, COMMA,
    DIGIT_0, DIGIT_1, DIGIT_7, DIGIT_9, EQUALS, FORM_FEED, GREATER, HASH, LESS, LINE_FEED, LOWER_A,
    LOWER_B, LOWER_E, LOWER_F, LOWER_L, LOWER_N, LOWER_O, LOWER_R, LOWER_S, LOWER_T, LOWER_U,
    LOWER_X, MINUS, PAREN_CLOSE, PAREN_OPEN, PLUS, POINT, QUOTE, SEMICOLON, SLASH, SPACE, STAR, TAB,
    UNDERSCORE, UPPER_A, UPPER_E, UPPER_F, UPPER_X,
};
use vstd::utf8::decode_utf8;

verus! {

/// The syntax that the number parser is given for a decimal literal: `_`
/// may separate digits, inside and at the end, digits are required, and
/// neither a leading `+` nor a special value such as `inf` is accepted.
/// The bits are, from the top: the radix, the digit separator, the
/// separator flags and the syntax flags.
pub const DEC_FORMAT: u128 = 0x0000_0A00_0000_005F_0000_0FC7_0000_041Fu128;

/// `DEC_FORMAT` with the radix 16.
pub const HEX_FORMAT: u128 = 0x0000_1000_0000_005F_0000_0FC7_0000_041Fu128;

/// `DEC_FORMAT` with the radix 8.
pub const OCT_FORMAT: u128 = 0x0000_0800_0000_005F_0000_0FC7_0000_041Fu128;

/// `DEC_FORMAT` with the radix 2.
pub const BIN_FORMAT: u128 = 0x0000_0200_0000_005F_0000_0FC7_0000_041Fu128;

/// What the number parser makes of `digits` under the syntax `format`:
/// the value, or `None` where it rejects the text or the value does not
/// fit.
pub uninterp spec fn lexical_integer(format: u128, digits: Seq<u8>) -> Option<i64>;

/// What a token is, with the text of a token as characters.
pub enum TokenView {
    BlockOpen,
    BlockClose,
    ParenOpen,
    ParenClose,
    True,
    False,
    Equals,
    SlashDash,
    Semicolon,
    Null,
    Backslash,
    Newline,
    StringWithEscapes(Seq<char>),
    StringWithNoEscapes(Seq<char>),
    Float(Seq<char>),
    Integer(i64),
    TyDescriptor(Seq<char>),
    Identifier(Seq<char>),
    Error,
}

/// The kinds of run that the grammar reads.
#[derive(Debug, Copy, Clone, PartialEq, Eq, Structural)]
pub enum ByteClass {
    /// What may stand in an identifier.
    Ident,
    /// What may stand in a type annotation.
    TypeName,
    /// `0` to `9`.
    Digit,
    /// `0` to `9` and `_`.
    DecimalDigit,
    /// `0` to `9`, `a` to `f`, `A` to `F` and `_`.
    HexDigit,
    /// `0` to `7` and `_`.
    OctalDigit,
    /// `0`, `1` and `_`.
    BinaryDigit,
    /// `#`.
    Hash,
    /// Anything but `"` and `\`.
    Plain,
    /// Anything but `"`; a `\` only in front of `t`, `u`, `n` or `"`, and
    /// together with it.
    Escaped,
    /// Anything but a line feed.
    NotLineFeed,
    /// A line-break character.
    Newline,
    /// A whitespace character.
    Space,
}

/// Whether the byte at `i` is `c`.
pub open spec fn has_byte(b: Seq<u8>, i: int, c: u8) -> bool {
    0 <= i < b.len() && b[i] == c
}

/// Whether there is a byte at `i` and it lies between `lo` and `hi`.
pub open spec fn has_byte_in(b: Seq<u8>, i: int, lo: u8, hi: u8) -> bool {
    0 <= i < b.len() && lo <= b[i] <= hi
}

/// `0` to `9`.
pub open spec fn is_digit(c: u8) -> bool {
    DIGIT_0 <= c <= DIGIT_9
}

/// The ASCII characters that end an identifier: the control characters,
/// the space, and `/ \ ( ) { } < > ; [ ] = , "`.
pub open spec fn is_reserved(c: u8) -> bool {
    ||| c <= SPACE
    ||| c == SLASH
    ||| c == BACKSLASH
    ||| c == PAREN_OPEN
    ||| c == PAREN_CLOSE
    ||| c == BRACE_OPEN
    ||| c == BRACE_CLOSE
    ||| c == LESS
    ||| c == GREATER
    ||| c == SEMICOLON
    ||| c == BRACKET_OPEN
    ||| c == BRACKET_CLOSE
    ||| c == EQUALS
    ||| c == COMMA
    ||| c == QUOTE
}

/// Whether the bytes `x` and `y` stand at `i` and behind it.
pub open spec fn has_pair(b: Seq<u8>, i: int, x: u8, y: u8) -> bool {
    has_byte(b, i, x) && has_byte(b, i + 1, y)
}

/// The number of bytes of the line-break character at `i`, 0 if there is
/// none. The line breaks are U+000A, U+000C, U+000D, U+0085, U+2028 and
/// U+2029.
pub open spec fn newline_len(b: Seq<u8>, i: int) -> int {
    if has_byte(b, i, LINE_FEED) || has_byte(b, i, FORM_FEED) || has_byte(b, i, CARRIAGE_RETURN) {
        1
    } else if has_pair(b, i, 0xC2, 0x85) {
        // U+0085
        2
    } else if has_pair(b, i, 0xE2, 0x80) && has_byte_in(b, i + 2, 0xA8, 0xA9) {
        // U+2028, U+2029
        3
    } else {
        0
    }
}

/// The number of bytes of the whitespace character at `i`, 0 if there is
/// none. Whitespace is U+0009, U+0020, U+00A0, U+1680, U+2000 to U+200A,
/// U+202F, U+205F and U+3000.
pub open spec fn space_len(b: Seq<u8>, i: int) -> int {
    if has_byte(b, i, TAB) || has_byte(b, i, SPACE) {
        1
    } else if has_pair(b, i, 0xC2, 0xA0) {
        // U+00A0
        2
    } else if has_pair(b, i, 0xE1, 0x9A) && has_byte(b, i + 2, 0x80) {
        // U+1680
        3
    } else if has_pair(b, i, 0xE2, 0x80) && has_byte_in(b, i + 2, 0x80, 0x8A) {
        // U+2000 to U+200A
        3
    } else if has_pair(b, i, 0xE2, 0x80) && has_byte(b, i + 2, 0xAF) {
        // U+202F
        3
    } else if has_pair(b, i, 0xE2, 0x81) && has_byte(b, i + 2, 0x9F) {
        // U+205F
        3
    } else if has_pair(b, i, 0xE3, 0x80) && has_byte(b, i + 2, 0x80) {
        // U+3000
        3
    } else {
        0
    }
}

/// Whether the byte at `i` may stand in an identifier: it is not
/// reserved, and no whitespace or line-break character begins there.
pub open spec fn ident_byte(b: Seq<u8>, i: int) -> bool {
    0 <= i < b.len() && !is_reserved(b[i]) && newline_len(b, i) == 0 && space_len(b, i) == 0
}

/// 1 where `inside` holds, else 0.
pub open spec fn one_if(inside: bool) -> int {
    if inside {
        1
    } else {
        0
    }
}

/// Whether `c` is a digit of the radix 16, in either case.
pub open spec fn is_hex_digit(c: u8) -> bool {
    is_digit(c) || LOWER_A <= c <= LOWER_F || UPPER_A <= c <= UPPER_F
}

/// Whether the byte at `i` is one of `t`, `u`, `n` and `"`, the
/// characters that may follow a backslash in a quoted string.
pub open spec fn escapable_at(b: Seq<u8>, i: int) -> bool {
    has_byte(b, i, LOWER_T) || has_byte(b, i, LOWER_U) || has_byte(b, i, LOWER_N) || has_byte(
        b,
        i,
        QUOTE,
    )
}

/// The number of bytes that a run of the class `cls` takes in one step at
/// `i`; 0 where the run ends.
pub open spec fn unit_len(cls: ByteClass, b: Seq<u8>, i: int) -> int {
    if !(0 <= i < b.len()) {
        0
    } else {
        let c = b[i];
        match cls {
            ByteClass::Ident => one_if(ident_byte(b, i)),
            ByteClass::TypeName => one_if(!is_reserved(c)),
            ByteClass::Digit => one_if(is_digit(c)),
            ByteClass::DecimalDigit => one_if(is_digit(c) || c == UNDERSCORE),
            ByteClass::HexDigit => one_if(is_hex_digit(c) || c == UNDERSCORE),
            ByteClass::OctalDigit => one_if(DIGIT_0 <= c <= DIGIT_7 || c == UNDERSCORE),
            ByteClass::BinaryDigit => one_if(c == DIGIT_0 || c == DIGIT_1 || c == UNDERSCORE),
            ByteClass::Hash => one_if(c == HASH),
            ByteClass::Plain => one_if(c != QUOTE && c != BACKSLASH),
            ByteClass::Escaped => if c == BACKSLASH {
                if escapable_at(b, i + 1) {
                    2
                } else {
                    0
                }
            } else {
                one_if(c != QUOTE)
            },
            ByteClass::NotLineFeed => one_if(c != LINE_FEED),
            ByteClass::Newline => newline_len(b, i),
            ByteClass::Space => space_len(b, i),
        }
    }
}

/// Where the longest run of the class `cls` that begins at `i` ends.
pub open spec fn run_end(cls: ByteClass, b: Seq<u8>, i: int) -> int
    decreases b.len() - i,
{
    if unit_len(cls, b, i) > 0 {
        run_end(cls, b, i + unit_len(cls, b, i))
    } else {
        i
    }
}

/// Whether `needle` stands in `hay` at `i`.
pub open spec fn occurs_at(hay: Seq<u8>, needle: Seq<u8>, i: int) -> bool {
    0 <= i && i + needle.len() <= hay.len() && hay.subrange(i, i + needle.len()) == needle
}

/// Whether `r` is the first place at which `needle` stands in `hay`, or
/// `None` where it stands nowhere.
pub open spec fn is_first_occurrence(hay: Seq<u8>, needle: Seq<u8>, r: Option<int>) -> bool {
    match r {
        Some(i) => occurs_at(hay, needle, i) && forall|j: int|
            0 <= j < i ==> !occurs_at(hay, needle, j),
        None => forall|j: int| !occurs_at(hay, needle, j),
    }
}

/// The first place from `i` on at which `needle` stands in `hay`.
pub open spec fn find_from(hay: Seq<u8>, needle: Seq<u8>, i: int) -> Option<int>
    decreases hay.len() - i + 1,
{
    if i < 0 || i + needle.len() > hay.len() {
        None
    } else if occurs_at(hay, needle, i) {
        Some(i)
    } else {
        find_from(hay, needle, i + 1)
    }
}

/// The text between the byte offsets `from` and `to`.
pub open spec fn text(b: Seq<u8>, from: int, to: int) -> Seq<char> {
    decode_utf8(b.subrange(from, to))
}

/// The delimiter that closes a raw string opened with `hashes` hashes: a
/// quote and as many hashes.
pub open spec fn raw_closing(hashes: int) -> Seq<u8> {
    Seq::new((hashes + 1) as nat, |k: int| if k == 0 { QUOTE } else { HASH })
}

/// Where the exponent that begins at `q` ends: `e` or `E`, an optional
/// sign and at least one digit. `q` itself where no exponent begins.
pub open spec fn exponent_end(b: Seq<u8>, q: int) -> int {
    if has_byte(b, q, LOWER_E) || has_byte(b, q, UPPER_E) {
        let s = if has_byte(b, q + 1, PLUS) || has_byte(b, q + 1, MINUS) {
            q + 2
        } else {
            q + 1
        };
        let x = run_end(ByteClass::Digit, b, s);
        if x > s {
            x
        } else {
            q
        }
    } else {
        q
    }
}

/// Where the text of a float that begins at `i` ends: digits, a point and
/// at least one digit, with or without an exponent; or at least one digit
/// and an exponent. `i` itself where no such text begins.
pub open spec fn float_end(b: Seq<u8>, i: int) -> int {
    let p = run_end(ByteClass::Digit, b, i);
    if has_byte(b, p, POINT) {
        let q = run_end(ByteClass::Digit, b, p + 1);
        if q > p + 1 {
            exponent_end(b, q)
        } else {
            i
        }
    } else if p > i {
        let x = exponent_end(b, p);
        if x > p {
            x
        } else {
            i
        }
    } else {
        i
    }
}

/// The token for the text of a float between `i` and `f`. A float needs
/// a digit in front of its point: `.5` is an error.
pub open spec fn float_token(b: Seq<u8>, i: int, f: int) -> TokenView {
    if 0 <= i < b.len() && is_digit(b[i]) {
        TokenView::Float(text(b, i, f))
    } else {
        TokenView::Error
    }
}

/// The token for the digits of an integer, as the number parser read
/// them.
pub open spec fn integer_token(parsed: Option<i64>) -> TokenView {
    match parsed {
        Some(v) => TokenView::Integer(v),
        None => TokenView::Error,
    }
}

/// The token that begins with the digit at `i`, and where it ends. A
/// radix prefix with digits behind it wins, then a float, then a decimal
/// integer.
pub open spec fn number_at(b: Seq<u8>, i: int) -> (TokenView, int) {
    let h = run_end(ByteClass::HexDigit, b, i + 2);
    let o = run_end(ByteClass::OctalDigit, b, i + 2);
    let n = run_end(ByteClass::BinaryDigit, b, i + 2);
    let f = float_end(b, i);
    let d = run_end(ByteClass::DecimalDigit, b, i);
    if (has_pair(b, i, DIGIT_0, LOWER_X) || has_pair(b, i, DIGIT_0, UPPER_X)) && h > i + 2 {
        (integer_token(lexical_integer(HEX_FORMAT, b.subrange(i + 2, h))), h)
    } else if has_pair(b, i, DIGIT_0, LOWER_O) && o > i + 2 {
        (integer_token(lexical_integer(OCT_FORMAT, b.subrange(i + 2, o))), o)
    } else if has_pair(b, i, DIGIT_0, LOWER_B) && n > i + 2 {
        (integer_token(lexical_integer(BIN_FORMAT, b.subrange(i + 2, n))), n)
    } else if f > i {
        (float_token(b, i, f), f)
    } else {
        (integer_token(lexical_integer(DEC_FORMAT, b.subrange(i, d))), d)
    }
}

/// The token of the word between `i` and `e`: a keyword or an identifier.
pub open spec fn word_token(b: Seq<u8>, i: int, e: int) -> TokenView {
    let w = b.subrange(i, e);
    if w == seq![LOWER_T, LOWER_R, LOWER_U, LOWER_E] {
        TokenView::True
    } else if w == seq![LOWER_F, LOWER_A, LOWER_L, LOWER_S, LOWER_E] {
        TokenView::False
    } else if w == seq![LOWER_N, LOWER_U, LOWER_L, LOWER_L] {
        TokenView::Null
    } else {
        TokenView::Identifier(text(b, i, e))
    }
}

/// The token that begins with the identifier byte at `i`, and where it
/// ends. `r`, hashes and a quote open a raw string, which runs to the
/// first quote with as many hashes behind it; without one the opening is
/// an error. A word that is all digits and `_` is read as a number, and
/// so is one that is the text of a float.
pub open spec fn word_at(b: Seq<u8>, i: int) -> (TokenView, int) {
    let e = run_end(ByteClass::Ident, b, i);
    let h = run_end(ByteClass::Hash, b, i + 1);
    if has_byte(b, i, LOWER_R) && has_byte(b, h, QUOTE) {
        let closing = raw_closing(h - i - 1);
        match find_from(b.subrange(h + 1, b.len() as int), closing, 0) {
            Some(k) => (
                TokenView::StringWithNoEscapes(text(b, h + 1, h + 1 + k)),
                h + 1 + k + closing.len(),
            ),
            None => (TokenView::Error, h + 1),
        }
    } else if has_byte(b, i, UNDERSCORE) && run_end(ByteClass::DecimalDigit, b, i) == e {
        (integer_token(lexical_integer(DEC_FORMAT, b.subrange(i, e))), e)
    } else if has_byte(b, i, POINT) && float_end(b, i) == e {
        (float_token(b, i, e), e)
    } else {
        (word_token(b, i, e), e)
    }
}

/// The token that begins with the quote at `i`, and where it ends: a
/// string without escapes if the text up to the next quote holds no
/// backslash, else a string with escapes if every backslash stands in
/// front of `t`, `u`, `n` or `"`, else an error.
pub open spec fn string_at(b: Seq<u8>, i: int) -> (TokenView, int) {
    let p = run_end(ByteClass::Plain, b, i + 1);
    let q = run_end(ByteClass::Escaped, b, i + 1);
    if has_byte(b, p, QUOTE) {
        (TokenView::StringWithNoEscapes(text(b, i + 1, p)), p + 1)
    } else if has_byte(b, q, QUOTE) {
        (TokenView::StringWithEscapes(text(b, i + 1, q)), q + 1)
    } else {
        (TokenView::Error, i + 1)
    }
}

/// The token that begins with the `(` at `i`, and where it ends: a type
/// annotation if a name that does not begin with a digit and a `)` follow
/// at once.
pub open spec fn paren_at(b: Seq<u8>, i: int) -> (TokenView, int) {
    let e = run_end(ByteClass::TypeName, b, i + 1);
    if e > i + 1 && !is_digit(b[i + 1]) && has_byte(b, e, PAREN_CLOSE) {
        (TokenView::TyDescriptor(text(b, i + 1, e)), e + 1)
    } else {
        (TokenView::ParenOpen, i + 1)
    }
}

/// The token that begins at `i`, and where it ends. A byte with which no
/// token begins is an error token of its own.
pub open spec fn token_at(b: Seq<u8>, i: int) -> (TokenView, int)
    recommends
        0 <= i < b.len(),
{
    let c = b[i];
    if c == BRACE_OPEN {
        (TokenView::BlockOpen, i + 1)
    } else if c == BRACE_CLOSE {
        (TokenView::BlockClose, i + 1)
    } else if c == PAREN_CLOSE {
        (TokenView::ParenClose, i + 1)
    } else if c == EQUALS {
        (TokenView::Equals, i + 1)
    } else if c == SEMICOLON {
        (TokenView::Semicolon, i + 1)
    } else if c == BACKSLASH {
        (TokenView::Backslash, i + 1)
    } else if c == PAREN_OPEN {
        paren_at(b, i)
    } else if c == QUOTE {
        string_at(b, i)
    } else if c == SLASH {
        if has_byte(b, i + 1, MINUS) {
            (TokenView::SlashDash, i + 2)
        } else {
            (TokenView::Error, i + 1)
        }
    } else if is_digit(c) {
        number_at(b, i)
    } else if newline_len(b, i) > 0 {
        (TokenView::Newline, run_end(ByteClass::Newline, b, i))
    } else if ident_byte(b, i) {
        word_at(b, i)
    } else {
        (TokenView::Error, i + 1)
    }
}

/// The number of bytes of the whitespace or the comment that begins at
/// `i`, 0 if none does. A block comment runs to the first `*/`; without
/// one only its `/*` is skipped. A line comment runs to the next line
/// feed and takes it; without one it is no comment.
pub open spec fn trivia_len(b: Seq<u8>, i: int) -> int {
    if space_len(b, i) > 0 {
        run_end(ByteClass::Space, b, i) - i
    } else if has_pair(b, i, SLASH, STAR) {
        match find_from(b.subrange(i + 2, b.len() as int), seq![STAR, SLASH], 0) {
            Some(k) => k + 4,
            None => 2,
        }
    } else if has_pair(b, i, SLASH, SLASH) {
        let e = run_end(ByteClass::NotLineFeed, b, i + 2);
        if has_byte(b, e, LINE_FEED) {
            e + 1 - i
        } else {
            0
        }
    } else {
        0
    }
}

/// Where the next token begins, from `i` on: behind all whitespace and
/// comments.
pub open spec fn skip_trivia(b: Seq<u8>, i: int) -> int
    decreases b.len() - i,
{
    if 0 <= i < b.len() && 0 < trivia_len(b, i) {
        proof {
            lemma_trivia_len_bounds(b, i);
        }
        skip_trivia(b, i + trivia_len(b, i))
    } else {
        i
    }
}

/// A run ends at or behind the place where it begins, inside the text,
/// and where it cannot go on.
pub proof fn lemma_run_end_bounds(cls: ByteClass, b: Seq<u8>, i: int)
    requires
        0 <= i <= b.len(),
    ensures
        i <= run_end(cls, b, i) <= b.len(),
        unit_len(cls, b, i) > 0 ==> i < run_end(cls, b, i),
        unit_len(cls, b, run_end(cls, b, i)) == 0,
    decreases b.len() - i,
{
    if unit_len(cls, b, i) > 0 {
        lemma_run_end_bounds(cls, b, i + unit_len(cls, b, i));
    }
}

/// What `find_from` finds lies at or behind the place where the search
/// began, and the needle fits into the text there.
pub proof fn lemma_find_from_bounds(hay: Seq<u8>, needle: Seq<u8>, i: int)
    ensures
        match find_from(hay, needle, i) {
            Some(k) => i <= k && occurs_at(hay, needle, k),
            None => true,
        },
    decreases hay.len() - i + 1,
{
    if !(i < 0 || i + needle.len() > hay.len()) && !occurs_at(hay, needle, i) {
        lemma_find_from_bounds(hay, needle, i + 1);
    }
}

/// `find_from` finds the first occurrence: a search that begins at or in
/// front of the first occurrence ends there, and one in a text without
/// any finds none.
pub proof fn lemma_find_from_is_first(hay: Seq<u8>, needle: Seq<u8>, i: int, r: Option<int>)
    requires
        is_first_occurrence(hay, needle, r),
        0 <= i,
        r is Some ==> i <= r.unwrap(),
    ensures
        find_from(hay, needle, i) == r,
    decreases hay.len() - i + 1,
{
    if !(i + needle.len() > hay.len()) && !occurs_at(hay, needle, i) {
        lemma_find_from_is_first(hay, needle, i + 1, r);
    }
}

/// Where an exponent ends lies at or behind the place where it could
/// begin, and inside the text.
pub proof fn lemma_exponent_end_bounds(b: Seq<u8>, q: int)
    requires
        0 <= q <= b.len(),
    ensures
        q <= exponent_end(b, q) <= b.len(),
{
    if has_byte(b, q, LOWER_E) || has_byte(b, q, UPPER_E) {
        let s = if has_byte(b, q + 1, PLUS) || has_byte(b, q + 1, MINUS) {
            q + 2
        } else {
            q + 1
        };
        lemma_run_end_bounds(ByteClass::Digit, b, s);
    }
}

/// Where a float ends lies at or behind the place where it could begin,
/// and inside the text.
pub proof fn lemma_float_end_bounds(b: Seq<u8>, i: int)
    requires
        0 <= i <= b.len(),
    ensures
        i <= float_end(b, i) <= b.len(),
{
    let p = run_end(ByteClass::Digit, b, i);
    lemma_run_end_bounds(ByteClass::Digit, b, i);
    if has_byte(b, p, POINT) {
        let q = run_end(ByteClass::Digit, b, p + 1);
        lemma_run_end_bounds(ByteClass::Digit, b, p + 1);
        lemma_exponent_end_bounds(b, q);
    } else {
        lemma_exponent_end_bounds(b, p);
    }
}

/// Every token takes at least one byte, and none reaches beyond the text.
pub proof fn lemma_token_at_bounds(b: Seq<u8>, i: int)
    requires
        0 <= i < b.len(),
    ensures
        i < token_at(b, i).1 <= b.len(),
{
    let c = b[i];
    if c == PAREN_OPEN {
        lemma_run_end_bounds(ByteClass::TypeName, b, i + 1);
    } else if c == QUOTE {
        lemma_run_end_bounds(ByteClass::Plain, b, i + 1);
        lemma_run_end_bounds(ByteClass::Escaped, b, i + 1);
    } else if is_digit(c) {
        lemma_float_end_bounds(b, i);
        lemma_run_end_bounds(ByteClass::DecimalDigit, b, i);
        if i + 2 <= b.len() {
            lemma_run_end_bounds(ByteClass::HexDigit, b, i + 2);
            lemma_run_end_bounds(ByteClass::OctalDigit, b, i + 2);
            lemma_run_end_bounds(ByteClass::BinaryDigit, b, i + 2);
        }
    } else if newline_len(b, i) > 0 {
        lemma_run_end_bounds(ByteClass::Newline, b, i);
    } else if ident_byte(b, i) {
        lemma_run_end_bounds(ByteClass::Ident, b, i);
        lemma_run_end_bounds(ByteClass::Hash, b, i + 1);
        let h = run_end(ByteClass::Hash, b, i + 1);
        if has_byte(b, h, QUOTE) {
            lemma_find_from_bounds(b.subrange(h + 1, b.len() as int), raw_closing(h - i - 1), 0);
        }
    }
}

/// Whitespace and comments take at least no byte, and none reaches
/// beyond the text.
pub proof fn lemma_trivia_len_bounds(b: Seq<u8>, i: int)
    requires
        0 <= i <= b.len(),
    ensures
        0 <= trivia_len(b, i) <= b.len() - i,
{
    if space_len(b, i) > 0 {
        lemma_run_end_bounds(ByteClass::Space, b, i);
    } else if has_pair(b, i, SLASH, STAR) {
        lemma_find_from_bounds(b.subrange(i + 2, b.len() as int), seq![STAR, SLASH], 0);
    } else if has_pair(b, i, SLASH, SLASH) {
        lemma_run_end_bounds(ByteClass::NotLineFeed, b, i + 2);
    }
}

/// Skipping ends at or behind the place where it began, and inside the
/// text.
pub proof fn lemma_skip_trivia_bounds(b: Seq<u8>, i: int)
    requires
        0 <= i <= b.len(),
    ensures
        i <= skip_trivia(b, i) <= b.len(),
    decreases b.len() - i,
{
    if i < b.len() && 0 < trivia_len(b, i) {
        lemma_trivia_len_bounds(b, i);
        lemma_skip_trivia_bounds(b, i + trivia_len(b, i));
    }
}

/// The tokens of the document from `i` on.
pub open spec fn tokens_from(b: Seq<u8>, i: int) -> Seq<TokenView>
    decreases b.len() - i,
{
    let j = skip_trivia(b, i);
    if 0 <= i <= j < b.len() {
        let (t, k) = token_at(b, j);
        proof {
            lemma_token_at_bounds(b, j);
        }
        seq![t] + tokens_from(b, k)
    } else {
        Seq::empty()
    }
}

/// The tokens of a document.
pub open spec fn tokens_of(b: Seq<u8>) -> Seq<TokenView> {
    tokens_from(b, 0)
}

} // verus!
