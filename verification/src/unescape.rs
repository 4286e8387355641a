//! Resolving the escapes of a string literal.
//!
//! A backslash introduces an escape. `\n \r \t \\ \b \f \/ \"` stand for one
//! character each, and `\u{H..H}`, with one to six hexadecimal digits,
//! stands for the Unicode scalar value with that number. Every other
//! character stands for itself.
//!
//! The escapes can be resolved eagerly, into a `String`
//! ([`unescape_std`]), or lazily, one character per call
//! ([`EscapingIter`]). Both read the same table, and
//! [`lemma_lazy_agrees_with_eager`] shows that they give the same text.
use vstd::prelude::*;
use vstd::utf8::is_scalar;
use crate::ParseError;
use crate::text::split_first_char;

verus! {

/// The character that the one-letter escape `\c` stands for.
pub open spec fn simple_escape(c: char) -> Option<char> {
    if c == 'n' {
        Some('\n')
    } else if c == 'r' {
        Some('\r')
    } else if c == 't' {
        Some('\t')
    } else if c == '\\' {
        Some('\\')
    } else if c == 'b' {
        Some('\u{8}')
    } else if c == 'f' {
        Some('\u{c}')
    } else if c == '/' {
        Some('/')
    } else if c == '"' {
        Some('"')
    } else {
        None
    }
}

/// The value of `c` as a hexadecimal digit: `0` to `9`, and `a` to `f`
/// in either case.
pub open spec fn hex_digit(c: char) -> Option<u32> {
    if '0' <= c <= '9' {
        Some((c as u32 - '0' as u32) as u32)
    } else if 'a' <= c <= 'f' {
        Some((c as u32 - 'a' as u32 + 10) as u32)
    } else if 'A' <= c <= 'F' {
        Some((c as u32 - 'A' as u32 + 10) as u32)
    } else {
        None
    }
}

/// Reads the rest of a `\u{` escape from `s[i..]`, after `count` digits
/// with the value `acc`. Gives the character and the index behind the `}`.
pub open spec fn unicode_digits(s: Seq<char>, i: int, count: int, acc: int) -> Result<
    (char, int),
    ParseError,
>
    decreases s.len() - i,
{
    if i < 0 || i >= s.len() {
        Err(ParseError::UnexpectedEOF)
    } else if s[i] == '}' {
        if 1 <= count && 0 <= acc <= u32::MAX && is_scalar(acc as u32) {
            Ok((acc as char, i + 1))
        } else {
            Err(ParseError::BadUnicodeEscape)
        }
    } else {
        match hex_digit(s[i]) {
            Some(d) => if count >= 6 {
                Err(ParseError::BadUnicodeEscape)
            } else {
                unicode_digits(s, i + 1, count + 1, acc * 16 + d)
            },
            None => Err(ParseError::BadUnicodeEscape),
        }
    }
}

/// Reads one escape from the text `s` that follows a backslash. Gives the
/// character it stands for and how many characters of `s` it took.
pub open spec fn escape_body(s: Seq<char>) -> Result<(char, int), ParseError> {
    if s.len() == 0 {
        Err(ParseError::UnexpectedEOF)
    } else if s[0] == 'u' {
        if s.len() < 2 || s[1] != '{' {
            Err(ParseError::BadUnicodeEscape)
        } else {
            unicode_digits(s, 2, 0, 0)
        }
    } else {
        match simple_escape(s[0]) {
            Some(c) => Ok((c, 1)),
            None => Err(ParseError::UnrecognizedEscape),
        }
    }
}

/// Reads the first character that the non-empty text `s` stands for. Gives
/// that character and how many characters of `s` it took.
pub open spec fn decode_first(s: Seq<char>) -> Result<(char, int), ParseError>
    recommends
        s.len() > 0,
{
    if s[0] != '\\' {
        Ok((s[0], 1))
    } else {
        match escape_body(s.skip(1)) {
            Ok((c, n)) => Ok((c, n + 1)),
            Err(e) => Err(e),
        }
    }
}

/// A successful `unicode_digits` ends behind the index where it began and
/// inside the text.
pub proof fn lemma_unicode_digits_bounds(s: Seq<char>, i: int, count: int, acc: int)
    requires
        unicode_digits(s, i, count, acc) is Ok,
    ensures
        i < unicode_digits(s, i, count, acc).unwrap().1 <= s.len(),
    decreases s.len() - i,
{
    if 0 <= i < s.len() && s[i] != '}' {
        lemma_unicode_digits_bounds(s, i + 1, count + 1, acc * 16 + hex_digit(s[i]).unwrap());
    }
}

/// A successful `decode_first` takes at least one character and no more
/// than there are.
pub proof fn lemma_decode_first_bounds(s: Seq<char>)
    requires
        s.len() > 0,
        decode_first(s) is Ok,
    ensures
        1 <= decode_first(s).unwrap().1 <= s.len(),
{
    if s[0] == '\\' {
        let t = s.skip(1);
        if t.len() > 0 && t[0] == 'u' {
            lemma_unicode_digits_bounds(t, 2, 0, 0);
        }
    }
}

/// The text that `s` stands for once every escape is resolved, or the
/// error of the first escape that is malformed.
pub open spec fn unescaped(s: Seq<char>) -> Result<Seq<char>, ParseError>
    decreases s.len(),
{
    if s.len() == 0 {
        Ok(Seq::empty())
    } else {
        match decode_first(s) {
            Err(e) => Err(e),
            Ok((c, n)) => {
                proof {
                    lemma_decode_first_bounds(s);
                }
                match unescaped(s.skip(n)) {
                    Ok(t) => Ok(seq![c] + t),
                    Err(e) => Err(e),
                }
            },
        }
    }
}

/// One step of lazy unescaping: what the next call yields from the text
/// `s` that is still to be read, and the text that is left after it. With
/// `shim` the text is handed out as it is. A malformed escape is yielded
/// once, as an error, and ends the reading.
pub open spec fn lazy_step(s: Seq<char>, shim: bool) -> (
    Option<Result<char, ParseError>>,
    Seq<char>,
) {
    if s.len() == 0 {
        (None, s)
    } else if shim {
        (Some(Ok(s[0])), s.skip(1))
    } else {
        match decode_first(s) {
            Ok((c, n)) => (Some(Ok(c)), s.skip(n)),
            Err(e) => (Some(Err(e)), Seq::empty()),
        }
    }
}

/// Everything that lazy unescaping yields from `s`, step by step, up to
/// the end of the text or the first error.
pub open spec fn lazy_text(s: Seq<char>, shim: bool) -> Result<Seq<char>, ParseError>
    decreases s.len(),
{
    match lazy_step(s, shim) {
        (None, _) => Ok(Seq::empty()),
        (Some(Err(e)), _) => Err(e),
        (Some(Ok(c)), rest) => {
            proof {
                if !shim {
                    lemma_decode_first_bounds(s);
                }
            }
            match lazy_text(rest, shim) {
                Ok(t) => Ok(seq![c] + t),
                Err(e) => Err(e),
            }
        },
    }
}

/// Lazy and eager unescaping agree: read to the end, the lazy reader has
/// yielded exactly the text that eager unescaping returns, or has stopped
/// at the same error.
pub proof fn lemma_lazy_agrees_with_eager(s: Seq<char>)
    ensures
        lazy_text(s, false) == unescaped(s),
    decreases s.len(),
{
    if s.len() > 0 {
        if let Ok((c, n)) = decode_first(s) {
            lemma_decode_first_bounds(s);
            lemma_lazy_agrees_with_eager(s.skip(n));
        }
    }
}

/// A reader that hands the text out as it is yields all of it, unchanged.
pub proof fn lemma_shim_yields_text(s: Seq<char>)
    ensures
        lazy_text(s, true) == Ok::<Seq<char>, ParseError>(s),
    decreases s.len(),
{
    if s.len() > 0 {
        lemma_shim_yields_text(s.skip(1));
        assert(seq![s[0]] + s.skip(1) =~= s);
    } else {
        assert(s =~= Seq::empty());
    }
}

/// The largest value that `count` hexadecimal digits can have, plus one.
pub open spec fn hex_limit(count: int) -> int {
    if count <= 0 {
        1
    } else if count == 1 {
        0x10
    } else if count == 2 {
        0x100
    } else if count == 3 {
        0x1000
    } else if count == 4 {
        0x1_0000
    } else if count == 5 {
        0x10_0000
    } else {
        0x100_0000
    }
}

/// The value of `c` as a hexadecimal digit, if it is one.
pub fn hex_value(c: char) -> (r: Option<u32>)
    ensures
        r == hex_digit(c),
        r is Some ==> r.unwrap() < 16,
{
    if '0' <= c && c <= '9' {
        Some(c as u32 - '0' as u32)
    } else if 'a' <= c && c <= 'f' {
        Some(c as u32 - 'a' as u32 + 10)
    } else if 'A' <= c && c <= 'F' {
        Some(c as u32 - 'A' as u32 + 10)
    } else {
        None
    }
}

/// The character that the one-letter escape `\c` stands for, if it is one.
pub fn simple_escape_of(c: char) -> (r: Option<char>)
    ensures
        r == simple_escape(c),
{
    if c == 'n' {
        Some('\n')
    } else if c == 'r' {
        Some('\r')
    } else if c == 't' {
        Some('\t')
    } else if c == '\\' {
        Some('\\')
    } else if c == 'b' {
        Some('\u{8}')
    } else if c == 'f' {
        Some('\u{c}')
    } else if c == '/' {
        Some('/')
    } else if c == '"' {
        Some('"')
    } else {
        None
    }
}

/// Reads the digits and the closing brace of a `\u{` escape from the start
/// of `s`. Gives the character and the text behind the brace.
fn read_unicode_digits<'a>(s: &'a str) -> (r: Result<(char, &'a str), ParseError>)
    ensures
        match unicode_digits(s@, 0, 0, 0) {
            Ok((c, n)) => r is Ok && r.unwrap().0 == c && r.unwrap().1@ == s@.skip(n),
            Err(e) => r == Err::<(char, &'a str), ParseError>(e),
        },
{
    let mut cur: &'a str = s;
    let mut count: u32 = 0;
    let mut acc: u32 = 0;
    let ghost mut i: int = 0;
    loop
        invariant
            0 <= i <= s@.len(),
            cur@ == s@.skip(i),
            0 <= count <= 6,
            acc < hex_limit(count as int),
            unicode_digits(s@, 0, 0, 0) == unicode_digits(s@, i, count as int, acc as int),
        decreases s@.len() - i,
    {
        match split_first_char(cur) {
            None => {
                return Err(ParseError::UnexpectedEOF);
            },
            Some((c, rest)) => {
                assert(c == s@[i]);
                assert(rest@ =~= s@.skip(i + 1));
                if c == '}' {
                    if count == 0 {
                        return Err(ParseError::BadUnicodeEscape);
                    }
                    match char::from_u32(acc) {
                        Some(ch) => {
                            return Ok((ch, rest));
                        },
                        None => {
                            return Err(ParseError::BadUnicodeEscape);
                        },
                    }
                }
                match hex_value(c) {
                    Some(d) => {
                        if count >= 6 {
                            return Err(ParseError::BadUnicodeEscape);
                        }
                        acc = acc * 16 + d;
                        count = count + 1;
                        cur = rest;
                        proof {
                            i = i + 1;
                        }
                    },
                    None => {
                        return Err(ParseError::BadUnicodeEscape);
                    },
                }
            },
        }
    }
}

/// Reads one escape from the start of `s`, the text behind a backslash.
/// Gives the character that it stands for and the text behind it.
pub fn read_escape<'a>(s: &'a str) -> (r: Result<(char, &'a str), ParseError>)
    ensures
        match escape_body(s@) {
            Ok((c, n)) => r is Ok && r.unwrap().0 == c && r.unwrap().1@ == s@.skip(n),
            Err(e) => r == Err::<(char, &'a str), ParseError>(e),
        },
{
    match split_first_char(s) {
        None => Err(ParseError::UnexpectedEOF),
        Some((c, rest)) => {
            if c == 'u' {
                match split_first_char(rest) {
                    None => Err(ParseError::BadUnicodeEscape),
                    Some((brace, digits)) => {
                        if brace != '{' {
                            return Err(ParseError::BadUnicodeEscape);
                        }
                        assert(digits@ =~= s@.skip(2));
                        proof {
                            lemma_unicode_digits_shift(s@, 2, 0, 0, 0);
                        }
                        match read_unicode_digits(digits) {
                            Ok((ch, after)) => {
                                proof {
                                    lemma_unicode_digits_bounds(digits@, 0, 0, 0);
                                    let n = unicode_digits(digits@, 0, 0, 0).unwrap().1;
                                    assert(s@.skip(2).skip(n) =~= s@.skip(n + 2));
                                }
                                Ok((ch, after))
                            },
                            Err(e) => Err(e),
                        }
                    },
                }
            } else {
                match simple_escape_of(c) {
                    Some(ch) => Ok((ch, rest)),
                    None => Err(ParseError::UnrecognizedEscape),
                }
            }
        },
    }
}

/// Reading the digits of a `\u{` escape depends only on the text from the
/// index where the reading starts.
pub proof fn lemma_unicode_digits_shift(s: Seq<char>, k: int, i: int, count: int, acc: int)
    requires
        0 <= k <= s.len(),
        0 <= i,
    ensures
        unicode_digits(s, k + i, count, acc) == match unicode_digits(s.skip(k), i, count, acc) {
            Ok((c, n)) => Ok::<(char, int), ParseError>((c, n + k)),
            Err(e) => Err(e),
        },
    decreases s.len() - k - i,
{
    let t = s.skip(k);
    if i < t.len() {
        assert(t[i] == s[k + i]);
        if t[i] != '}' {
            if let Some(d) = hex_digit(t[i]) {
                if count < 6 {
                    lemma_unicode_digits_shift(s, k, i + 1, count + 1, acc * 16 + d);
                }
            }
        }
    }
}

/// Reads the first character that `s` stands for. Gives that character and
/// the text behind what was read; `None` at the end of the text.
pub fn read_char<'a>(s: &'a str) -> (r: Option<Result<(char, &'a str), ParseError>>)
    ensures
        s@.len() == 0 ==> r is None,
        s@.len() > 0 ==> r is Some && match decode_first(s@) {
            Ok((c, n)) => r.unwrap() is Ok && r.unwrap().unwrap().0 == c && r.unwrap().unwrap().1@
                == s@.skip(n),
            Err(e) => r.unwrap() == Err::<(char, &'a str), ParseError>(e),
        },
{
    match split_first_char(s) {
        None => None,
        Some((c, rest)) => {
            if c != '\\' {
                Some(Ok((c, rest)))
            } else {
                match read_escape(rest) {
                    Ok((ch, after)) => {
                        proof {
                            lemma_decode_first_bounds(s@);
                            let n = escape_body(s@.skip(1)).unwrap().1;
                            assert(s@.skip(1).skip(n) =~= s@.skip(n + 1));
                        }
                        Some(Ok((ch, after)))
                    },
                    Err(e) => Some(Err(e)),
                }
            }
        },
    }
}

/// Resolves every escape of `s` into a new `String`, or reports the first
/// escape that is malformed.
pub fn unescape_std(s: &str) -> (r: Result<String, ParseError>)
    ensures
        match unescaped(s@) {
            Ok(t) => r is Ok && r.unwrap()@ == t,
            Err(e) => r == Err::<String, ParseError>(e),
        },
{
    let mut buf = String::new();
    let mut cur: &str = s;
    loop
        invariant
            unescaped(s@) == match unescaped(cur@) {
                Ok(t) => Ok::<Seq<char>, ParseError>(buf@ + t),
                Err(e) => Err(e),
            },
        decreases cur@.len(),
    {
        match read_char(cur) {
            None => {
                assert(buf@ + Seq::<char>::empty() =~= buf@);
                return Ok(buf);
            },
            Some(Err(e)) => {
                return Err(e);
            },
            Some(Ok((c, rest))) => {
                proof {
                    lemma_decode_first_bounds(cur@);
                    if let Ok(t) = unescaped(rest@) {
                        assert(buf@ + (seq![c] + t) =~= buf@.push(c) + t);
                    }
                }
                buf.push(c);
                cur = rest;
            },
        }
    }
}

/// A lazy reader of the characters that a string literal stands for.
///
/// Each call of [`EscapingIter::next`] resolves at most one escape, and
/// nothing is allocated.
pub struct EscapingIter<'a> {
    rest: &'a str,
    shim: bool,
    failed: bool,
}

impl<'a> EscapingIter<'a> {
    /// The text that is still to be read.
    pub closed spec fn remaining(&self) -> Seq<char> {
        if self.failed {
            Seq::empty()
        } else {
            self.rest@
        }
    }

    /// Whether the reader hands the text out as it is.
    pub closed spec fn is_shim(&self) -> bool {
        self.shim
    }

    /// A reader that resolves the escapes of `inner`.
    pub fn unescape(inner: &'a str) -> (r: EscapingIter<'a>)
        ensures
            r.remaining() == inner@,
            !r.is_shim(),
    {
        EscapingIter { rest: inner, shim: false, failed: false }
    }

    /// A reader that hands `inner` out as it is, for text without escapes.
    pub fn shim(inner: &'a str) -> (r: EscapingIter<'a>)
        ensures
            r.remaining() == inner@,
            r.is_shim(),
    {
        EscapingIter { rest: inner, shim: true, failed: false }
    }

    /// The next character, `None` at the end of the text. A malformed
    /// escape is reported once; after it the reader is at its end.
    pub fn next(&mut self) -> (r: Option<Result<char, ParseError>>)
        ensures
            (r, final(self).remaining()) == lazy_step(old(self).remaining(), old(self).is_shim()),
            final(self).is_shim() == old(self).is_shim(),
    {
        if self.failed {
            return None;
        }
        if self.shim {
            match split_first_char(self.rest) {
                None => None,
                Some((c, rest)) => {
                    self.rest = rest;
                    Some(Ok(c))
                },
            }
        } else {
            match read_char(self.rest) {
                None => None,
                Some(Ok((c, rest))) => {
                    self.rest = rest;
                    Some(Ok(c))
                },
                Some(Err(e)) => {
                    self.failed = true;
                    Some(Err(e))
                },
            }
        }
    }
}

} // verus!
