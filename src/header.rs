use vstd::prelude::*;
use vstd::string::*;
use vstd::utf8::*;
use crate::block::{byte_sum, sum_range, Block};
use crate::octal::{
    format_octal, format_octal_spec, lemma_octal_digits_len, octal_digits, parse_octal,
    parse_octal_spec, pow8, lemma_zero_padded_read_back, unsigned_digits, zero_padded,
};
use crate::text::{
    as_chars, field_text, is_pad, lemma_ascii_decodes, read_field, trim_end, trim_pad, trim_start,
};

verus! {

/// The USTAR checksum of a block: every byte summed, with the eight bytes of
/// the checksum field counted as ASCII spaces.
pub open spec fn checksum_of(b: Seq<u8>) -> int {
    byte_sum(b.subrange(0, 148)) + 32 * 8 + byte_sum(b.subrange(156, 512))
}

/// A block is a header when its checksum field holds octal text whose value
/// is the block's checksum.
pub open spec fn is_header(b: Seq<u8>) -> bool {
    match field_text(b, 148, 156) {
        Some(t) => t.len() > 0 && parse_octal_spec(t, u32::MAX as nat) == Some(
            checksum_of(b) as nat,
        ),
        None => false,
    }
}

/// The member name a header block holds, or `None` where it is not UTF-8.
pub open spec fn header_name(b: Seq<u8>) -> Option<Seq<char>> {
    field_text(b, 0, 100)
}

/// The content size a header block declares; text that is not a number
/// reads as zero.
pub open spec fn header_size(b: Seq<u8>) -> nat {
    match field_text(b, 124, 136) {
        Some(t) => match parse_octal_spec(t, u64::MAX as nat) {
            Some(v) => v,
            None => 0,
        },
        None => 0,
    }
}

/// Why a header block could not be read.
#[derive(Debug, Clone, Copy, PartialEq, Eq)]
pub enum HeaderError {
    /// The name field is not UTF-8.
    InvalidName,
}

/// Why a header could not be written.
#[derive(Debug, Clone, Copy, PartialEq, Eq)]
pub enum EncodeError {
    /// A value's text is longer than its field.
    FieldTooWide,
}

/// Sums the block's bytes, counting the checksum field as spaces.
pub fn calculate_block_checksum(block: &Block) -> (r: u32)
    ensures
        r as int == checksum_of(block@),
        r <= 504 * 255 + 256,
{
    let a = sum_range(block, 0, 148);
    let b = sum_range(block, 156, 512);
    a + 256 + b
}

/// Whether `block` is a header: its checksum field must hold the octal
/// value of its checksum.
pub fn is_valid_header(block: &Block) -> (r: bool)
    ensures
        r == is_header(block@),
{
    match read_field(block, 148, 156) {
        None => false,
        Some(text) => {
            if text.len() == 0 {
                return false;
            }
            match parse_octal(&text, u32::MAX as u64) {
                None => false,
                Some(stored) => stored == calculate_block_checksum(block) as u64,
            }
        },
    }
}

/// Relies on `String`'s `FromIterator<char>`: the string holds the
/// characters in order.
#[verifier::external_body]
fn chars_to_string(chars: &Vec<char>) -> (r: String)
    ensures
        r@ == chars@,
{
    chars.iter().collect()
}

/// The trimmed member name of a header block.
pub fn extract_file_name(header_block: &Block) -> (r: Result<String, HeaderError>)
    ensures
        match header_name(header_block@) {
            Some(n) => r.is_ok() && r.unwrap()@ == n,
            None => r == Err::<String, HeaderError>(HeaderError::InvalidName),
        },
{
    match read_field(header_block, 0, 100) {
        Some(chars) => Ok(chars_to_string(&chars)),
        None => Err(HeaderError::InvalidName),
    }
}

/// The content size that a header block declares, zero where the field
/// does not hold an octal number.
pub fn extract_content_size(header_block: &Block) -> (r: u64)
    ensures
        r as nat == header_size(header_block@),
{
    match read_field(header_block, 124, 136) {
        None => 0,
        Some(text) => match parse_octal(&text, u64::MAX) {
            Some(v) => v,
            None => 0,
        },
    }
}

/// The name and content size of a header block.
pub fn extract_file_info(header_block: &Block) -> (r: Result<(String, u64), HeaderError>)
    ensures
        match header_name(header_block@) {
            Some(n) => r.is_ok() && r.unwrap().0@ == n && r.unwrap().1 as nat == header_size(
                header_block@,
            ),
            None => r == Err::<(String, u64), HeaderError>(HeaderError::InvalidName),
        },
{
    let file_name = extract_file_name(header_block)?;
    let content_size = extract_content_size(header_block);
    Ok((file_name, content_size))
}

/// The fields of a USTAR header, as the encoder writes them.
pub struct TarHeader {
    pub file_name: String,
    pub mode: u32,
    pub uid: u32,
    pub gid: u32,
    pub file_size: u64,
    pub mtime: u64,
    pub typeflag: u8,
    pub link_name: String,
    pub magic: String,
    pub version: String,
    pub uname: String,
    pub gname: String,
    pub devmajor: u32,
    pub devminor: u32,
    pub prefix: String,
}

/// Text of an optional name; a name that could not be had is empty.
pub open spec fn name_or_empty(n: Option<String>) -> Seq<char> {
    match n {
        Some(s) => s@,
        None => Seq::empty(),
    }
}

/// The header of a regular file from its metadata: permission bits cut to
/// the low nine, type `0`, magic `ustar`, version `00`, no link name, device
/// numbers zero, and empty user and group names where none was found.
pub fn create_header(
    file_name: &str,
    mode: u32,
    uid: u32,
    gid: u32,
    file_size: u64,
    mtime: u64,
    uname: Option<String>,
    gname: Option<String>,
) -> (r: TarHeader)
    ensures
        r.file_name@ == file_name@,
        r.mode == mode & 0o777,
        r.uid == uid,
        r.gid == gid,
        r.file_size == file_size,
        r.mtime == mtime,
        r.typeflag == 0,
        r.link_name@ == Seq::<char>::empty(),
        r.magic@ == seq!['u', 's', 't', 'a', 'r'],
        r.version@ == seq!['0', '0'],
        r.uname@ == name_or_empty(uname),
        r.gname@ == name_or_empty(gname),
        r.devmajor == 0,
        r.devminor == 0,
        r.prefix@ == Seq::<char>::empty(),
{
    let magic = "ustar".to_owned();
    let version = "00".to_owned();
    proof {
        reveal_strlit("ustar");
        reveal_strlit("00");
    }
    assert(magic@ =~= seq!['u', 's', 't', 'a', 'r']);
    assert(version@ =~= seq!['0', '0']);
    TarHeader {
        file_name: file_name.to_owned(),
        mode: mode & 0o777,
        uid,
        gid,
        file_size,
        mtime,
        typeflag: 0,
        link_name: String::new(),
        magic,
        version,
        uname: match uname {
            Some(n) => n,
            None => String::new(),
        },
        gname: match gname {
            Some(n) => n,
            None => String::new(),
        },
        devmajor: 0,
        devminor: 0,
        prefix: String::new(),
    }
}

/// A field's text with the byte range `[start, end)` it is written into.
pub struct Field {
    pub text: Vec<u8>,
    pub start: usize,
    pub end: usize,
}

pub open spec fn field_view(f: Field) -> (Seq<u8>, int, int) {
    (f.text@, f.start as int, f.end as int)
}

/// Every field but the checksum, with its text and byte range, in the
/// order they are written.
pub open spec fn header_fields(h: TarHeader) -> Seq<(Seq<u8>, int, int)> {
    seq![
        (encode_utf8(h.file_name@), 0int, 100int),
        (format_octal_spec(h.mode as nat, 7, 32), 100int, 108int),
        (format_octal_spec(h.uid as nat, 7, 32), 108int, 116int),
        (format_octal_spec(h.gid as nat, 7, 32), 116int, 124int),
        (format_octal_spec(h.file_size as nat, 12, 32), 124int, 136int),
        (format_octal_spec(h.mtime as nat, 12, 32), 136int, 148int),
        (format_octal_spec(h.typeflag as nat, 1, 32), 156int, 157int),
        (encode_utf8(h.link_name@), 157int, 257int),
        (encode_utf8(h.magic@), 257int, 263int),
        (encode_utf8(h.version@), 263int, 265int),
        (encode_utf8(h.uname@), 265int, 297int),
        (encode_utf8(h.gname@), 297int, 329int),
        (format_octal_spec(h.devmajor as nat, 7, 32), 329int, 337int),
        (format_octal_spec(h.devminor as nat, 7, 32), 337int, 345int),
        (encode_utf8(h.prefix@), 345int, 500int),
    ]
}

/// Every field's text fits in its byte range.
pub open spec fn fields_fit(fields: Seq<(Seq<u8>, int, int)>) -> bool {
    forall|i: int|
        0 <= i < fields.len() ==> (#[trigger] fields[i]).0.len() <= fields[i].2 - fields[i].1
}

/// `b` with the bytes from `start` on replaced by `v`.
pub open spec fn write_at(b: Seq<u8>, v: Seq<u8>, start: int) -> Seq<u8> {
    b.subrange(0, start) + v + b.subrange(start + v.len(), b.len() as int)
}

/// `b` with each field written in turn.
pub open spec fn write_fields(b: Seq<u8>, fields: Seq<(Seq<u8>, int, int)>) -> Seq<u8>
    decreases fields.len(),
{
    if fields.len() == 0 {
        b
    } else {
        write_at(write_fields(b, fields.drop_last()), fields.last().0, fields.last().1)
    }
}

pub open spec fn zero_block() -> Seq<u8> {
    Seq::new(512, |i: int| 0u8)
}

/// The checksum field's text: six digits, a NUL and a space.
pub open spec fn checksum_text(sum: nat) -> Seq<u8> {
    format_octal_spec(sum, 7, 0).push(32)
}

/// The header block of `h`, or `None` where a field does not fit.
pub open spec fn encode_header(h: TarHeader) -> Option<Seq<u8>> {
    let fields = header_fields(h);
    if fields_fit(fields) {
        let pre = write_fields(zero_block(), fields);
        Some(write_at(pre, checksum_text(checksum_of(pre) as nat), 148))
    } else {
        None
    }
}

/// Copies `value` into `block` from `start` on, failing where it is longer
/// than `end - start`.
pub fn insert_in_block(block: &mut Block, value: &Vec<u8>, start: usize, end: usize) -> (r: Result<
    (),
    EncodeError,
>)
    requires
        start <= end <= 512,
    ensures
        value@.len() <= end - start ==> r.is_ok() && final(block)@ == write_at(
            old(block)@,
            value@,
            start as int,
        ),
        value@.len() > end - start ==> r == Err::<(), EncodeError>(EncodeError::FieldTooWide)
            && final(block)@ == old(block)@,
{
    let len = value.len();
    if len > end - start {
        return Err(EncodeError::FieldTooWide);
    }
    let mut i: usize = 0;
    while i < len
        invariant
            len == value@.len(),
            start + len <= end <= 512,
            i <= len,
            block@ == write_at(old(block)@, value@.subrange(0, i as int), start as int),
        decreases len - i,
    {
        block[start + i] = value[i];
        i = i + 1;
        assert(block@ =~= write_at(old(block)@, value@.subrange(0, i as int), start as int));
    }
    assert(value@.subrange(0, len as int) =~= value@);
    Ok(())
}

/// A checksum's text fills the eight bytes of its field exactly.
pub proof fn lemma_checksum_text_len(sum: nat)
    requires
        sum <= 504 * 255 + 256,
    ensures
        checksum_text(sum).len() == 8,
        octal_digits(sum).len() <= 6,
{
    assert(pow8(6) == 262144) by {
        reveal_with_fuel(pow8, 7);
    }
    lemma_octal_digits_len(sum, 6);
}

fn text_field(s: &String, start: usize, end: usize) -> (r: Field)
    ensures
        field_view(r) == (encode_utf8(s@), start as int, end as int),
{
    Field { text: s.as_str().as_bytes_vec(), start, end }
}

fn number_field(v: u64, width: usize, start: usize, end: usize) -> (r: Field)
    requires
        1 <= width,
    ensures
        field_view(r) == (format_octal_spec(v as nat, width as nat, 32), start as int, end as int),
{
    Field { text: format_octal(v, width, 32), start, end }
}

/// The fields of `header` but the checksum, in the order they are written.
pub fn header_field_list(header: &TarHeader) -> (r: Vec<Field>)
    ensures
        r@.map_values(|f: Field| field_view(f)) == header_fields(*header),
{
    let r = vec![
        text_field(&header.file_name, 0, 100),
        number_field(header.mode as u64, 7, 100, 108),
        number_field(header.uid as u64, 7, 108, 116),
        number_field(header.gid as u64, 7, 116, 124),
        number_field(header.file_size, 12, 124, 136),
        number_field(header.mtime, 12, 136, 148),
        number_field(header.typeflag as u64, 1, 156, 157),
        text_field(&header.link_name, 157, 257),
        text_field(&header.magic, 257, 263),
        text_field(&header.version, 263, 265),
        text_field(&header.uname, 265, 297),
        text_field(&header.gname, 297, 329),
        number_field(header.devmajor as u64, 7, 329, 337),
        number_field(header.devminor as u64, 7, 337, 345),
        text_field(&header.prefix, 345, 500),
    ];
    assert(r@.map_values(|f: Field| field_view(f)) =~= header_fields(*header));
    r
}

/// Encodes `header` as a block, its checksum written last.
pub fn create_header_block(header: &TarHeader) -> (r: Result<Block, EncodeError>)
    ensures
        match encode_header(*header) {
            Some(b) => r.is_ok() && r.unwrap()@ == b,
            None => r == Err::<Block, EncodeError>(EncodeError::FieldTooWide),
        },
{
    let fields = header_field_list(header);
    let ghost fs = header_fields(*header);
    let mut block: Block = [0u8; 512];
    assert(block@ =~= zero_block());
    let mut k: usize = 0;
    while k < fields.len()
        invariant
            k <= fields@.len() == fs.len() == 15,
            fs == fields@.map_values(|f: Field| field_view(f)),
            fs == header_fields(*header),
            fields_fit(fs.take(k as int)),
            block@ == write_fields(zero_block(), fs.take(k as int)),
            block@.len() == 512,
            forall|i: int| 0 <= i < 15 ==> #[trigger] fs[i].1 <= fs[i].2 <= 512,
        decreases fields@.len() - k,
    {
        let f = &fields[k];
        assert(field_view(fields@[k as int]) == fs[k as int]);
        match insert_in_block(&mut block, &f.text, f.start, f.end) {
            Ok(()) => {},
            Err(e) => {
                assert(!fields_fit(fs));
                return Err(e);
            },
        }
        k = k + 1;
        assert(fs.take(k as int).drop_last() =~= fs.take(k - 1));
        assert(fields_fit(fs.take(k as int)));
    }
    assert(fs.take(15) =~= fs);
    let sum = calculate_block_checksum(&block);
    let mut text = format_octal(sum as u64, 7, 0);
    text.push(32u8);
    proof {
        lemma_checksum_text_len(sum as nat);
    }
    match insert_in_block(&mut block, &text, 148, 156) {
        Ok(()) => Ok(block),
        Err(e) => Err(e),
    }
}

proof fn lemma_byte_sum_bound(s: Seq<u8>)
    ensures
        0 <= byte_sum(s) <= 255 * s.len(),
    decreases s.len(),
{
    if s.len() > 0 {
        lemma_byte_sum_bound(s.drop_last());
    }
}

/// Every field's byte range lies inside a block.
pub open spec fn ranges_ok(fields: Seq<(Seq<u8>, int, int)>) -> bool {
    forall|i: int| 0 <= i < fields.len() ==> 0 <= (#[trigger] fields[i]).1 <= fields[i].2 <= 512
}

/// Writing fitting fields keeps a block's length.
pub proof fn lemma_write_fields_len(b: Seq<u8>, fields: Seq<(Seq<u8>, int, int)>)
    requires
        b.len() == 512,
        fields_fit(fields),
        ranges_ok(fields),
    ensures
        write_fields(b, fields).len() == 512,
    decreases fields.len(),
{
    if fields.len() > 0 {
        let rest = fields.drop_last();
        assert(fields_fit(rest)) by {
            assert forall|i: int| 0 <= i < rest.len() implies (#[trigger] rest[i]).0.len()
                <= rest[i].2 - rest[i].1 by {
                assert(rest[i] == fields[i]);
            }
        }
        assert(ranges_ok(rest)) by {
            assert forall|i: int| 0 <= i < rest.len() implies 0 <= (#[trigger] rest[i]).1
                <= rest[i].2 <= 512 by {
                assert(rest[i] == fields[i]);
            }
        }
        lemma_write_fields_len(b, rest);
        let last = fields[fields.len() - 1];
        assert(last.0.len() <= last.2 - last.1);
    }
}

/// Every field range of a header lies inside a block.
pub proof fn lemma_header_ranges(h: TarHeader)
    ensures
        ranges_ok(header_fields(h)),
        header_fields(h).len() == 15,
{
    let fs = header_fields(h);
    assert(forall|i: int| 0 <= i < 15 ==> #[trigger] fs[i].1 <= fs[i].2 <= 512 && 0 <= fs[i].1);
}

/// A header block that the encoder writes is recognised as a header: its
/// checksum field reads back as the block's checksum.
pub proof fn lemma_encoded_header_is_valid(h: TarHeader)
    requires
        encode_header(h).is_some(),
    ensures
        is_header(encode_header(h).unwrap()),
        encode_header(h).unwrap().len() == 512,
{
    let fs = header_fields(h);
    let pre = write_fields(zero_block(), fs);
    lemma_header_ranges(h);
    lemma_write_fields_len(zero_block(), fs);
    lemma_byte_sum_bound(pre.subrange(0, 148));
    lemma_byte_sum_bound(pre.subrange(156, 512));
    let cs = checksum_of(pre) as nat;
    lemma_checksum_text_len(cs);
    lemma_zero_padded_read_back(cs, 6);
    let zp = zero_padded(cs, 6);
    let ct = checksum_text(cs);
    assert(ct == zp.push(0u8).push(32u8));
    let fin = write_at(pre, ct, 148);
    assert(fin == encode_header(h).unwrap());
    assert(fin.subrange(0, 148) =~= pre.subrange(0, 148));
    assert(fin.subrange(156, 512) =~= pre.subrange(156, 512));
    assert(checksum_of(fin) == cs);
    assert(fin.subrange(148, 156) =~= ct);
    assert forall|i: int| 0 <= i < ct.len() implies #[trigger] ct[i] < 128 by {
        if i < 6 {
            assert(48 <= zp[i] <= 55);
        }
    }
    lemma_ascii_decodes(ct);
    let chars = as_chars(ct);
    let digits = as_chars(zp);
    assert(48 <= zp[0] <= 55);
    assert(!is_pad(chars[0]));
    assert(trim_start(chars) == chars);
    assert(chars.drop_last() =~= as_chars(zp.push(0u8)));
    assert(chars.drop_last().drop_last() =~= digits);
    assert(48 <= zp[5] <= 55);
    assert(!is_pad(digits.last()));
    assert(trim_end(digits) == digits);
    assert(trim_end(chars.drop_last()) == trim_end(digits));
    assert(trim_pad(chars) == digits);
    assert(field_text(fin, 148, 156) == Some(digits));
    assert(unsigned_digits(digits) == digits);
}

} // verus!
