//! Zero-copy access to the characters and byte ranges of a `&str`.
use vstd::prelude::*;
use vstd::string::StringSliceAdditionalSpecFns;
use vstd::string::StrSliceExecFns;
use vstd::utf8::*;

verus! {

/// The view of a string slice is what its bytes decode to.
pub proof fn lemma_view_from_bytes(s: &str, bytes: Seq<u8>)
    requires
        s.spec_bytes() == bytes,
    ensures
        valid_utf8(bytes),
        s@ == decode_utf8(bytes),
{
    encode_utf8_valid_utf8(s@);
    encode_utf8_decode_utf8(s@);
}

/// Inside valid UTF-8 an index is a character boundary exactly when it is
/// the end of the text or the byte there is no continuation byte.
pub proof fn lemma_boundary(bytes: Seq<u8>, i: int)
    requires
        valid_utf8(bytes),
        0 <= i <= bytes.len(),
    ensures
        is_char_boundary(bytes, i) <==> (i == bytes.len() || !is_continuation_byte(bytes[i])),
{
    if i == bytes.len() {
        is_char_boundary_start_end_of_seq(bytes);
    } else {
        is_char_boundary_iff_not_is_continuation_byte(bytes, i);
    }
}

/// The number of bytes of the character whose encoding begins with `c`.
pub open spec fn width_of(c: u8) -> int {
    if is_leading_byte_width_1(c) {
        1
    } else if is_leading_byte_width_2(c) {
        2
    } else if is_leading_byte_width_3(c) {
        3
    } else {
        4
    }
}

/// Inside valid UTF-8, a byte that is no continuation byte begins a
/// character: there is a boundary in front of it and one behind the
/// character, which lies inside the text.
pub proof fn lemma_char_boundaries(bytes: Seq<u8>, i: int)
    requires
        valid_utf8(bytes),
        0 <= i < bytes.len(),
        !is_continuation_byte(bytes[i]),
    ensures
        is_char_boundary(bytes, i),
        i + width_of(bytes[i]) <= bytes.len(),
        is_char_boundary(bytes, i + width_of(bytes[i])),
{
    lemma_boundary(bytes, i);
    valid_utf8_split(bytes, i);
    let tail = bytes.subrange(i, bytes.len() as int);
    let n = width_of(bytes[i]);
    assert(tail[0] == bytes[i]);
    assert(valid_first_scalar(tail));
    assert(n == length_of_first_scalar(tail));
    assert(n <= tail.len());
    assert(is_char_boundary(tail, n)) by {
        reveal_with_fuel(is_char_boundary, 2);
    }
    lemma_boundary(tail, n);
    lemma_boundary(bytes, i + n);
    if i + n < bytes.len() {
        assert(tail[n] == bytes[i + n]);
    }
}

/// The number of bytes that the UTF-8 encoding of `c` takes.
pub fn utf8_width(c: char) -> (n: usize)
    ensures
        n == encode_scalar(c as u32).len(),
        1 <= n <= 4,
{
    let v: u32 = c as u32;
    if v < 0x80 {
        1
    } else if v < 0x800 {
        2
    } else if v < 0x10000 {
        3
    } else {
        4
    }
}

/// The part of `s` between the byte offsets `from` and `to`, borrowed from `s`.
pub fn slice_str<'a>(s: &'a str, from: usize, to: usize) -> (r: &'a str)
    requires
        from <= to <= s.spec_bytes().len(),
        is_char_boundary(s.spec_bytes(), from as int),
        is_char_boundary(s.spec_bytes(), to as int),
    ensures
        r.spec_bytes() == s.spec_bytes().subrange(from as int, to as int),
        r@ == decode_utf8(s.spec_bytes().subrange(from as int, to as int)),
{
    let ghost bytes = s.spec_bytes();
    proof {
        encode_utf8_valid_utf8(s@);
    }
    let (head, _) = s.split_at(to);
    proof {
        let hb = bytes.subrange(0, to as int);
        valid_utf8_split(bytes, to as int);
        assert(head.spec_bytes() == hb);
        lemma_boundary(bytes, from as int);
        lemma_boundary(hb, from as int);
    }
    let (_, r) = head.split_at(from);
    proof {
        assert(r.spec_bytes() =~= bytes.subrange(from as int, to as int));
        lemma_view_from_bytes(r, bytes.subrange(from as int, to as int));
    }
    r
}

/// Splits off the first character of `s`; `None` when `s` is empty.
pub fn split_first_char<'a>(s: &'a str) -> (r: Option<(char, &'a str)>)
    ensures
        s@.len() == 0 ==> r.is_none(),
        s@.len() > 0 ==> r.is_some() && r.unwrap().0 == s@[0] && r.unwrap().1@ == s@.skip(1),
{
    if s.is_empty() {
        return None;
    }
    let c = s.get_char(0);
    let n = utf8_width(c);
    let ghost bytes = s.spec_bytes();
    proof {
        encode_utf8_valid_utf8(s@);
        encode_utf8_first_scalar(s@);
        assert(pop_first_scalar(bytes) =~= encode_utf8(s@.drop_first()));
        assert(is_char_boundary(bytes, n as int)) by {
            reveal_with_fuel(is_char_boundary, 2);
            encode_utf8_valid_utf8(s@.drop_first());
        }
    }
    let (_, rest) = s.split_at(n);
    proof {
        assert(rest.spec_bytes() == encode_utf8(s@.drop_first()));
        encode_utf8_decode_utf8(rest@);
        encode_utf8_decode_utf8(s@.drop_first());
        assert(s@.drop_first() =~= s@.skip(1));
    }
    Some((c, rest))
}

/// Whether `a` and `b` hold the same text.
pub fn str_eq(a: &str, b: &str) -> (r: bool)
    ensures
        r == (a@ == b@),
{
    let x = a.as_bytes();
    let y = b.as_bytes();
    proof {
        encode_utf8_decode_utf8(a@);
        encode_utf8_decode_utf8(b@);
    }
    if x.len() != y.len() {
        return false;
    }
    let mut i: usize = 0;
    while i < x.len()
        invariant
            i <= x@.len(),
            x@.len() == y@.len(),
            x@.take(i as int) == y@.take(i as int),
            x@ == a.spec_bytes(),
            y@ == b.spec_bytes(),
        decreases x@.len() - i,
    {
        if x[i] != y[i] {
            assert(x@[i as int] != y@[i as int]);
            return false;
        }
        assert(x@.take(i + 1) =~= x@.take(i as int).push(x@[i as int]));
        assert(y@.take(i + 1) =~= y@.take(i as int).push(y@[i as int]));
        i = i + 1;
    }
    assert(x@ =~= x@.take(i as int));
    assert(y@ =~= y@.take(i as int));
    true
}

/// `char::from_u32` of std: the character with the code `i`, for every `i`
/// that is a Unicode scalar value, and `None` for every other `i`.
pub assume_specification[ char::from_u32 ](i: u32) -> (r: Option<char>)
    ensures
        r == if is_scalar(i) {
            Some(i as char)
        } else {
            None::<char>
        },
;

/// `String::push` of std: appends `ch` to the end of the string.
pub assume_specification[ std::string::String::push ](s: &mut std::string::String, ch: char)
    ensures
        final(s)@ == old(s)@.push(ch),
;

} // verus!
