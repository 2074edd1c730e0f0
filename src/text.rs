use vstd::prelude::*;
use vstd::utf8::*;

verus! {

/// The characters for which `char::is_whitespace` holds: Unicode's
/// `White_Space` property.
pub open spec fn is_white_space(c: char) -> bool {
    let u = c as u32;
    (0x09 <= u <= 0x0d) || u == 0x20 || u == 0x85 || u == 0xa0 || u == 0x1680 || (0x2000 <= u
        <= 0x200a) || u == 0x2028 || u == 0x2029 || u == 0x202f || u == 0x205f || u == 0x3000
}

/// A character that is trimmed from both ends of a header field.
pub open spec fn is_pad(c: char) -> bool {
    c == '\0' || is_white_space(c)
}

pub open spec fn trim_start(s: Seq<char>) -> Seq<char>
    decreases s.len(),
{
    if s.len() > 0 && is_pad(s[0]) {
        trim_start(s.drop_first())
    } else {
        s
    }
}

pub open spec fn trim_end(s: Seq<char>) -> Seq<char>
    decreases s.len(),
{
    if s.len() > 0 && is_pad(s.last()) {
        trim_end(s.drop_last())
    } else {
        s
    }
}

/// `s` without the NUL and white-space characters at either end.
pub open spec fn trim_pad(s: Seq<char>) -> Seq<char> {
    trim_end(trim_start(s))
}

/// The trimmed text of the bytes `[start, end)` of a block, or `None` where
/// those bytes are not well-formed UTF-8.
pub open spec fn field_text(b: Seq<u8>, start: int, end: int) -> Option<Seq<char>> {
    let f = b.subrange(start, end);
    if valid_utf8(f) {
        Some(trim_pad(decode_utf8(f)))
    } else {
        None
    }
}

pub fn is_white_space_char(c: char) -> (r: bool)
    ensures
        r == is_white_space(c),
{
    let u = c as u32;
    (0x09 <= u && u <= 0x0d) || u == 0x20 || u == 0x85 || u == 0xa0 || u == 0x1680 || (0x2000
        <= u && u <= 0x200a) || u == 0x2028 || u == 0x2029 || u == 0x202f || u == 0x205f || u
        == 0x3000
}

pub fn is_pad_char(c: char) -> (r: bool)
    ensures
        r == is_pad(c),
{
    c == '\0' || is_white_space_char(c)
}

/// Relies on `std::str::from_utf8`: it accepts exactly the well-formed UTF-8
/// sequences, and the characters of its result are those the bytes encode.
#[verifier::external_body]
fn decode_chars(bytes: &[u8]) -> (r: Option<Vec<char>>)
    ensures
        r.is_some() <==> valid_utf8(bytes@),
        r.is_some() ==> r.unwrap()@ == decode_utf8(bytes@),
{
    match std::str::from_utf8(bytes) {
        Ok(s) => Some(s.chars().collect()),
        Err(_) => None,
    }
}

/// `v` without the pad characters at either end.
pub fn trim_chars(v: &Vec<char>) -> (r: Vec<char>)
    ensures
        r@ == trim_pad(v@),
{
    let n = v.len();
    let mut lo: usize = 0;
    assert(v@.subrange(0, n as int) =~= v@);
    while lo < n && is_pad_char(v[lo])
        invariant
            lo <= n == v@.len(),
            trim_start(v@) == trim_start(v@.subrange(lo as int, n as int)),
        decreases n - lo,
    {
        assert(v@.subrange(lo as int, n as int).drop_first() =~= v@.subrange(lo + 1, n as int));
        lo = lo + 1;
    }
    assert(trim_start(v@) == v@.subrange(lo as int, n as int));
    let mut hi: usize = n;
    while hi > lo && is_pad_char(v[hi - 1])
        invariant
            lo <= hi <= n == v@.len(),
            trim_pad(v@) == trim_end(v@.subrange(lo as int, hi as int)),
        decreases hi - lo,
    {
        assert(v@.subrange(lo as int, hi as int).drop_last() =~= v@.subrange(lo as int, hi - 1));
        hi = hi - 1;
    }
    assert(trim_pad(v@) == v@.subrange(lo as int, hi as int));
    let mut r: Vec<char> = Vec::new();
    let mut i: usize = lo;
    while i < hi
        invariant
            lo <= i <= hi <= n == v@.len(),
            r@ == v@.subrange(lo as int, i as int),
        decreases hi - i,
    {
        r.push(v[i]);
        i = i + 1;
        assert(r@ =~= v@.subrange(lo as int, i as int));
    }
    assert(r@ =~= v@.subrange(lo as int, hi as int));
    r
}

/// The trimmed text of the bytes `[start, end)` of `b`.
pub fn read_field(b: &[u8; 512], start: usize, end: usize) -> (r: Option<Vec<char>>)
    requires
        start <= end <= 512,
    ensures
        r.is_some() == field_text(b@, start as int, end as int).is_some(),
        r.is_some() ==> r.unwrap()@ == field_text(b@, start as int, end as int).unwrap(),
{
    let mut bytes: Vec<u8> = Vec::new();
    let mut i: usize = start;
    while i < end
        invariant
            start <= i <= end <= 512,
            bytes@ == b@.subrange(start as int, i as int),
        decreases end - i,
    {
        bytes.push(b[i]);
        i = i + 1;
        assert(bytes@ =~= b@.subrange(start as int, i as int));
    }
    match decode_chars(bytes.as_slice()) {
        Some(chars) => Some(trim_chars(&chars)),
        None => None,
    }
}

/// The characters of ASCII bytes.
pub open spec fn as_chars(b: Seq<u8>) -> Seq<char> {
    b.map_values(|x: u8| x as char)
}

/// ASCII bytes are UTF-8 and decode one character per byte.
pub proof fn lemma_ascii_decodes(b: Seq<u8>)
    requires
        forall|i: int| 0 <= i < b.len() ==> #[trigger] b[i] < 128,
    ensures
        valid_utf8(b),
        decode_utf8(b) == as_chars(b),
{
    let chars = as_chars(b);
    assert(is_ascii_chars(chars)) by {
        assert forall|i: int| 0 <= i < chars.len() implies '\0' <= #[trigger] chars[i] <= '\u{7f}' by {
            assert(b[i] < 128);
        }
    }
    is_ascii_chars_encode_utf8(chars);
    assert(encode_utf8(chars) =~= b) by {
        assert forall|i: int| 0 <= i < b.len() implies encode_utf8(chars)[i] == b[i] by {
            assert(chars[i] as u8 == encode_utf8(chars)[i]);
            assert(b[i] < 128);
        }
    }
    encode_utf8_valid_utf8(chars);
    encode_utf8_decode_utf8(chars);
}

} // verus!
