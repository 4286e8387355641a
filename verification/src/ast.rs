//! The values that a document holds: strings, typed values and properties.
use vstd::prelude::*;
use std::borrow::Cow;
use crate::ParseError;
use crate::text::str_eq;
use crate::unescape::{unescape_std, unescaped, EscapingIter};

verus! {

/// A string of a document, kept as it was written.
///
/// `Escapeless` text holds no escape and stands for itself; it is never
/// copied. `Escaped` text holds escapes that are resolved only on demand.
/// Two strings are equal when what they stand for is equal, however each
/// was written.
#[derive(Debug, Copy, Clone)]
pub enum KdlString<'a> {
    Escapeless(&'a str),
    Escaped(&'a str),
}

impl<'a> KdlString<'a> {
    /// The text as it was written.
    pub open spec fn raw(self) -> Seq<char> {
        match self {
            KdlString::Escapeless(s) => s@,
            KdlString::Escaped(s) => s@,
        }
    }

    /// The text that the string stands for, or the error of its first
    /// malformed escape.
    pub open spec fn text(self) -> Result<Seq<char>, ParseError> {
        match self {
            KdlString::Escapeless(s) => Ok(s@),
            KdlString::Escaped(s) => unescaped(s@),
        }
    }

    /// Both strings are well-formed and stand for the same text.
    pub open spec fn same_as(self, other: Self) -> bool {
        self.text() is Ok && other.text() is Ok && self.text().unwrap() == other.text().unwrap()
    }

    /// A lazy reader of the text that the string stands for. Nothing is
    /// allocated; a malformed escape shows when the reader reaches it.
    pub fn unescape_iter(&self) -> (r: EscapingIter<'a>)
        ensures
            r.remaining() == self.raw(),
            r.is_shim() == (*self is Escapeless),
    {
        match self {
            KdlString::Escapeless(s) => EscapingIter::shim(s),
            KdlString::Escaped(s) => EscapingIter::unescape(s),
        }
    }

    /// The text that the string stands for. It is borrowed when the string
    /// was written without escapes, and allocated only otherwise.
    pub fn unescape(&self) -> (r: Result<Cow<'a, str>, ParseError>)
        ensures
            match self.text() {
                Ok(t) => r is Ok && r.unwrap()@ == t,
                Err(e) => r == Err::<Cow<'a, str>, ParseError>(e),
            },
            match *self {
                KdlString::Escapeless(s) => r == Ok::<Cow<'a, str>, ParseError>(Cow::Borrowed(s)),
                KdlString::Escaped(_) => r is Ok ==> r.unwrap() is Owned,
            },
    {
        match self {
            KdlString::Escapeless(s) => Ok(Cow::Borrowed(*s)),
            KdlString::Escaped(s) => match unescape_std(s) {
                Ok(owned) => Ok(Cow::Owned(owned)),
                Err(e) => Err(e),
            },
        }
    }
}

/// A string written without escapes and a string written with escapes
/// are equal whenever the second stands for the text of the first.
pub proof fn lemma_variants_compare_equal<'a>(plain: &'a str, escaped: &'a str)
    requires
        unescaped(escaped@) == Ok::<Seq<char>, ParseError>(plain@),
    ensures
        KdlString::Escapeless(plain).same_as(KdlString::Escaped(escaped)),
        KdlString::Escaped(escaped).same_as(KdlString::Escapeless(plain)),
{
}

/// The text behind a `Cow`, borrowed from it.
fn cow_str<'b>(c: &'b Cow<'_, str>) -> (r: &'b str)
    ensures
        r@ == c@,
{
    match c {
        Cow::Borrowed(b) => b,
        Cow::Owned(o) => o.as_str(),
    }
}

impl<'a> PartialEq for KdlString<'a> {
    fn eq(&self, other: &Self) -> (r: bool) {
        match self.unescape() {
            Ok(lhs) => match other.unescape() {
                Ok(rhs) => str_eq(cow_str(&lhs), cow_str(&rhs)),
                Err(_) => false,
            },
            Err(_) => false,
        }
    }
}

impl<'a> vstd::std_specs::cmp::PartialEqSpecImpl for KdlString<'a> {
    open spec fn obeys_eq_spec() -> bool {
        true
    }

    open spec fn eq_spec(&self, other: &Self) -> bool {
        self.same_as(*other)
    }
}

/// A value of a document.
///
/// A float is kept as the text of its literal, which is never empty and
/// always has digits before the point or the exponent.
#[derive(Debug, Copy, Clone)]
pub enum KdlValue<'a> {
    String(KdlString<'a>),
    Integer(i64),
    Float(&'a str),
    Bool(bool),
    Null,
}

impl<'a> KdlValue<'a> {
    /// The values are of one kind and hold the same: strings by what they
    /// stand for, floats by the text of their literals.
    pub open spec fn same_as(self, other: Self) -> bool {
        match (self, other) {
            (KdlValue::String(a), KdlValue::String(b)) => a.same_as(b),
            (KdlValue::Integer(a), KdlValue::Integer(b)) => a == b,
            (KdlValue::Float(a), KdlValue::Float(b)) => a@ == b@,
            (KdlValue::Bool(a), KdlValue::Bool(b)) => a == b,
            (KdlValue::Null, KdlValue::Null) => true,
            _ => false,
        }
    }

    /// The string, if the value is one.
    pub fn as_kdlstring(&self) -> (r: Option<&KdlString<'a>>)
        ensures
            r == match *self {
                KdlValue::String(s) => Some(&s),
                _ => None,
            },
    {
        if let KdlValue::String(s) = self {
            Some(s)
        } else {
            None
        }
    }

    /// The text that the value stands for, if it is a well-formed string.
    pub fn as_str(&self) -> (r: Option<Cow<'a, str>>)
        ensures
            match *self {
                KdlValue::String(s) => match s.text() {
                    Ok(t) => r is Some && r.unwrap()@ == t,
                    Err(_) => r is None,
                },
                _ => r is None,
            },
    {
        if let KdlValue::String(s) = self {
            match s.unescape() {
                Ok(t) => Some(t),
                Err(_) => None,
            }
        } else {
            None
        }
    }

    /// The integer, if the value is one.
    pub fn as_int(&self) -> (r: Option<&i64>)
        ensures
            r == match *self {
                KdlValue::Integer(i) => Some(&i),
                _ => None,
            },
    {
        if let KdlValue::Integer(i) = self {
            Some(i)
        } else {
            None
        }
    }

    /// The text of the float literal, if the value is a float.
    pub fn as_float(&self) -> (r: Option<&'a str>)
        ensures
            r == match *self {
                KdlValue::Float(f) => Some(f),
                _ => None,
            },
    {
        if let KdlValue::Float(f) = self {
            Some(*f)
        } else {
            None
        }
    }

    /// The boolean, if the value is one.
    pub fn as_bool(&self) -> (r: Option<&bool>)
        ensures
            r == match *self {
                KdlValue::Bool(b) => Some(&b),
                _ => None,
            },
    {
        if let KdlValue::Bool(b) = self {
            Some(b)
        } else {
            None
        }
    }
}

impl<'a> PartialEq for KdlValue<'a> {
    fn eq(&self, other: &Self) -> (r: bool) {
        match (self, other) {
            (KdlValue::String(a), KdlValue::String(b)) => *a == *b,
            (KdlValue::Integer(a), KdlValue::Integer(b)) => *a == *b,
            (KdlValue::Float(a), KdlValue::Float(b)) => str_eq(a, b),
            (KdlValue::Bool(a), KdlValue::Bool(b)) => *a == *b,
            (KdlValue::Null, KdlValue::Null) => true,
            _ => false,
        }
    }
}

impl<'a> vstd::std_specs::cmp::PartialEqSpecImpl for KdlValue<'a> {
    open spec fn obeys_eq_spec() -> bool {
        true
    }

    open spec fn eq_spec(&self, other: &Self) -> bool {
        self.same_as(*other)
    }
}

/// A value with the type annotation that was written in front of it, if
/// there was one. Equality looks at the value alone.
#[derive(Debug, Copy, Clone)]
pub struct TypedValue<'a> {
    pub ty: Option<&'a str>,
    pub val: KdlValue<'a>,
}

impl<'a> PartialEq for TypedValue<'a> {
    fn eq(&self, other: &Self) -> (r: bool) {
        self.val == other.val
    }
}

impl<'a> vstd::std_specs::cmp::PartialEqSpecImpl for TypedValue<'a> {
    open spec fn obeys_eq_spec() -> bool {
        true
    }

    open spec fn eq_spec(&self, other: &Self) -> bool {
        self.val.same_as(other.val)
    }
}

/// A `key=value` pair of a node.
#[derive(Debug, Copy, Clone)]
pub struct KdlProperty<'a> {
    pub key: KdlString<'a>,
    pub value: TypedValue<'a>,
}

impl<'a> PartialEq for KdlProperty<'a> {
    fn eq(&self, other: &Self) -> (r: bool) {
        self.key == other.key && self.value == other.value
    }
}

impl<'a> vstd::std_specs::cmp::PartialEqSpecImpl for KdlProperty<'a> {
    open spec fn obeys_eq_spec() -> bool {
        true
    }

    open spec fn eq_spec(&self, other: &Self) -> bool {
        self.key.same_as(other.key) && self.value.val.same_as(other.value.val)
    }
}

} // verus!
