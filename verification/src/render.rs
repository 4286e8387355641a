//! Values as text: what a string, a value and a typed value read as.
//!
//! A string reads as the text that it stands for, an integer as its
//! decimal digits, a float as its literal, a boolean as `true` or
//! `false` and the null value as `nil`. A type annotation is put in
//! parentheses in front of its value. A string with a malformed escape
//! has no text: the error of the escape is given instead.
use vstd::prelude::*;
use vstd::string::StringExecFns;
use crate::ast::{KdlString, KdlValue, TypedValue};
use crate::unescape::unescape_std;
use crate::ParseError;

verus! {

/// The character of the decimal digit `d`.
pub open spec fn digit_char(d: int) -> char {
    if d == 0 {
        '0'
    } else if d == 1 {
        '1'
    } else if d == 2 {
        '2'
    } else if d == 3 {
        '3'
    } else if d == 4 {
        '4'
    } else if d == 5 {
        '5'
    } else if d == 6 {
        '6'
    } else if d == 7 {
        '7'
    } else if d == 8 {
        '8'
    } else {
        '9'
    }
}

/// The decimal digits of `n`, without leading zeros.
pub open spec fn digits(n: nat) -> Seq<char>
    decreases n,
{
    if n < 10 {
        seq![digit_char(n as int)]
    } else {
        digits(n / 10).push(digit_char((n % 10) as int))
    }
}

/// The integer `v` in decimal, with `-` in front where it is negative.
pub open spec fn decimal(v: int) -> Seq<char> {
    if v < 0 {
        seq!['-'] + digits((-v) as nat)
    } else {
        digits(v as nat)
    }
}

/// What the value `v` reads as.
pub open spec fn value_text<'a>(v: KdlValue<'a>) -> Result<Seq<char>, ParseError> {
    match v {
        KdlValue::String(s) => s.text(),
        KdlValue::Integer(i) => Ok(decimal(i as int)),
        KdlValue::Float(f) => Ok(f@),
        KdlValue::Bool(b) => Ok(
            if b {
                seq!['t', 'r', 'u', 'e']
            } else {
                seq!['f', 'a', 'l', 's', 'e']
            },
        ),
        KdlValue::Null => Ok(seq!['n', 'i', 'l']),
    }
}

/// What the typed value `t` reads as.
pub open spec fn typed_text<'a>(t: TypedValue<'a>) -> Result<Seq<char>, ParseError> {
    match value_text(t.val) {
        Err(e) => Err(e),
        Ok(text) => match t.ty {
            Some(ty) => Ok(seq!['('] + ty@ + seq![')'] + text),
            None => Ok(text),
        },
    }
}

/// The character of the decimal digit `d`.
fn digit_of(d: u64) -> (r: char)
    requires
        d < 10,
    ensures
        r == digit_char(d as int),
{
    if d == 0 {
        '0'
    } else if d == 1 {
        '1'
    } else if d == 2 {
        '2'
    } else if d == 3 {
        '3'
    } else if d == 4 {
        '4'
    } else if d == 5 {
        '5'
    } else if d == 6 {
        '6'
    } else if d == 7 {
        '7'
    } else if d == 8 {
        '8'
    } else {
        '9'
    }
}

/// Appends the decimal digits of `n` to `buf`.
fn push_digits(buf: &mut String, n: u64)
    ensures
        final(buf)@ == old(buf)@ + digits(n as nat),
    decreases n,
{
    if n >= 10 {
        push_digits(buf, n / 10);
    }
    let ghost before = buf@;
    buf.push(digit_of(n % 10));
    proof {
        if n >= 10 {
            assert(old(buf)@ + digits((n / 10) as nat).push(digit_char((n % 10) as int))
                =~= before.push(digit_char((n % 10) as int)));
        } else {
            assert(old(buf)@ + seq![digit_char(n as int)] =~= before.push(digit_char(n as int)));
        }
    }
}

/// The integer `v` in decimal.
pub fn integer_to_string(v: i64) -> (r: String)
    ensures
        r@ == decimal(v as int),
{
    let mut buf = String::new();
    if v < 0 {
        buf.push('-');
        let magnitude: u64 = if v == i64::MIN {
            0x8000_0000_0000_0000u64
        } else {
            (-v) as u64
        };
        push_digits(&mut buf, magnitude);
        assert(buf@ =~= seq!['-'] + digits((-v) as nat));
    } else {
        push_digits(&mut buf, v as u64);
        assert(buf@ =~= digits(v as nat));
    }
    buf
}

impl<'a> KdlString<'a> {
    /// The text that the string stands for, as a new `String`.
    pub fn to_string(&self) -> (r: Result<String, ParseError>)
        ensures
            match self.text() {
                Ok(t) => r is Ok && r->Ok_0@ == t,
                Err(e) => r is Err && r->Err_0 == e,
            },
    {
        match self {
            KdlString::Escapeless(s) => Ok(String::from_str(s)),
            KdlString::Escaped(s) => unescape_std(s),
        }
    }
}

impl<'a> KdlValue<'a> {
    /// What the value reads as.
    pub fn to_string(&self) -> (r: Result<String, ParseError>)
        ensures
            match value_text(*self) {
                Ok(t) => r is Ok && r->Ok_0@ == t,
                Err(e) => r is Err && r->Err_0 == e,
            },
    {
        match self {
            KdlValue::String(s) => s.to_string(),
            KdlValue::Integer(i) => Ok(integer_to_string(*i)),
            KdlValue::Float(f) => Ok(String::from_str(f)),
            KdlValue::Bool(b) => {
                proof {
                    reveal_strlit("true");
                    reveal_strlit("false");
                    assert("true"@ =~= seq!['t', 'r', 'u', 'e']);
                    assert("false"@ =~= seq!['f', 'a', 'l', 's', 'e']);
                }
                if *b {
                    Ok(String::from_str("true"))
                } else {
                    Ok(String::from_str("false"))
                }
            },
            KdlValue::Null => {
                proof {
                    reveal_strlit("nil");
                    assert("nil"@ =~= seq!['n', 'i', 'l']);
                }
                Ok(String::from_str("nil"))
            },
        }
    }
}

impl<'a> TypedValue<'a> {
    /// What the typed value reads as: `(ty)value`, or `value` alone where
    /// no type was written.
    pub fn to_string(&self) -> (r: Result<String, ParseError>)
        ensures
            match typed_text(*self) {
                Ok(t) => r is Ok && r->Ok_0@ == t,
                Err(e) => r is Err && r->Err_0 == e,
            },
    {
        let text = match self.val.to_string() {
            Ok(text) => text,
            Err(e) => {
                return Err(e);
            },
        };
        match self.ty {
            Some(ty) => {
                let mut buf = String::new();
                buf.push('(');
                buf.append(ty);
                buf.push(')');
                buf.append(text.as_str());
                assert(buf@ =~= seq!['('] + ty@ + seq![')'] + text@);
                Ok(buf)
            },
            None => Ok(text),
        }
    }
}

} // verus!
