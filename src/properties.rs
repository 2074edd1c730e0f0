use vstd::prelude::*;
use vstd::utf8::*;
use crate::archive::{
    content_blocks, encode_archive, extract_spec, find_name, flush, list_names, member_blocks, run,
    step, Entry, ExtractError, Files, Open,
};
use crate::block::{blocks_for, flatten, is_zero, padded_chunk};
use crate::header::{
    checksum_text, encode_header, fields_fit, header_fields, header_name, is_header,
    lemma_encoded_header_is_valid, lemma_header_ranges,
    lemma_write_fields_len, ranges_ok, write_at, write_fields, zero_block, TarHeader,
};
use crate::text::{as_chars, field_text, is_pad, lemma_ascii_decodes, trim_end, trim_pad, trim_start};

verus! {

/// A name with no NUL or white space at either end, so that it reads back
/// from a header unchanged.
pub open spec fn is_trimmed(s: Seq<char>) -> bool {
    s.len() == 0 || (!is_pad(s[0]) && !is_pad(s.last()))
}

/// `n` NUL characters.
pub open spec fn nuls(n: nat) -> Seq<char> {
    Seq::new(n, |i: int| '\0')
}

proof fn lemma_encode_concat(a: Seq<char>, b: Seq<char>)
    ensures
        encode_utf8(a + b) == encode_utf8(a) + encode_utf8(b),
    decreases a.len(),
{
    if a.len() == 0 {
        assert(a + b =~= b);
        assert(encode_utf8(a) + encode_utf8(b) =~= encode_utf8(b));
    } else {
        assert((a + b).drop_first() =~= a.drop_first() + b);
        assert((a + b)[0] == a[0]);
        lemma_encode_concat(a.drop_first(), b);
        assert(encode_utf8(a + b) =~= encode_utf8(a) + encode_utf8(b));
    }
}

proof fn lemma_encode_nuls(n: nat)
    ensures
        encode_utf8(nuls(n)) == Seq::new(n, |i: int| 0u8),
{
    let z = Seq::new(n, |i: int| 0u8);
    lemma_ascii_decodes(z);
    assert(as_chars(z) =~= nuls(n));
    decode_utf8_encode_utf8(z);
}

proof fn lemma_trim_end_nuls(s: Seq<char>, n: nat)
    ensures
        trim_end(s + nuls(n)) == trim_end(s),
    decreases n,
{
    if n == 0 {
        assert(s + nuls(n) =~= s);
    } else {
        assert((s + nuls(n)).drop_last() =~= s + nuls((n - 1) as nat));
        lemma_trim_end_nuls(s, (n - 1) as nat);
    }
}

proof fn lemma_trim_start_nuls(n: nat)
    ensures
        trim_start(nuls(n)) == Seq::<char>::empty(),
    decreases n,
{
    if n > 0 {
        assert(nuls(n).drop_first() =~= nuls((n - 1) as nat));
        lemma_trim_start_nuls((n - 1) as nat);
    }
}

/// A trimmed name followed by NULs reads back as the name.
proof fn lemma_trim_padded_name(s: Seq<char>, n: nat)
    requires
        is_trimmed(s),
    ensures
        trim_pad(s + nuls(n)) == s,
{
    if s.len() == 0 {
        assert(s + nuls(n) =~= nuls(n));
        lemma_trim_start_nuls(n);
    } else {
        assert((s + nuls(n))[0] == s[0]);
        assert(trim_start(s + nuls(n)) == s + nuls(n));
        lemma_trim_end_nuls(s, n);
    }
}

/// Writing fields keeps the bytes of a range that none of them touches.
proof fn lemma_write_fields_keeps(
    b: Seq<u8>,
    fields: Seq<(Seq<u8>, int, int)>,
    lo: int,
    hi: int,
)
    requires
        b.len() == 512,
        0 <= lo <= hi <= 512,
        fields_fit(fields),
        ranges_ok(fields),
        forall|i: int| 0 <= i < fields.len() ==> (#[trigger] fields[i]).2 <= lo || fields[i].1 >= hi,
    ensures
        write_fields(b, fields).subrange(lo, hi) == b.subrange(lo, hi),
    decreases fields.len(),
{
    if fields.len() > 0 {
        let rest = fields.drop_last();
        assert(fields_fit(rest)) by {
            assert forall|i: int| 0 <= i < rest.len() implies (#[trigger] rest[i]).0.len()
                <= rest[i].2 - rest[i].1 by {
                assert(rest[i] == fields[i]);
            }
        }
        assert(ranges_ok(rest)) by {
            assert forall|i: int| 0 <= i < rest.len() implies 0 <= (#[trigger] rest[i]).1
                <= rest[i].2 <= 512 by {
                assert(rest[i] == fields[i]);
            }
        }
        assert forall|i: int| 0 <= i < rest.len() implies (#[trigger] rest[i]).2 <= lo
            || rest[i].1 >= hi by {
            assert(rest[i] == fields[i]);
        }
        lemma_write_fields_keeps(b, rest, lo, hi);
        lemma_write_fields_len(b, rest);
        let last = fields[fields.len() - 1];
        assert(last.0.len() <= last.2 - last.1);
        assert(last.2 <= lo || last.1 >= hi);
        assert(write_fields(b, fields).subrange(lo, hi) =~= write_fields(b, rest).subrange(lo, hi));
    }
}

/// The name of an encoded header reads back unchanged.
pub proof fn lemma_header_name_round_trip(h: TarHeader)
    requires
        encode_header(h).is_some(),
        is_trimmed(h.file_name@),
    ensures
        header_name(encode_header(h).unwrap()) == Some(h.file_name@),
{
    let fs = header_fields(h);
    lemma_header_ranges(h);
    let first = write_at(zero_block(), fs[0].0, 0);
    let rest = fs.skip(1);
    assert(fs[0].0.len() <= 100);
    assert(fields_fit(rest)) by {
        assert forall|i: int| 0 <= i < rest.len() implies (#[trigger] rest[i]).0.len()
            <= rest[i].2 - rest[i].1 by {
            assert(rest[i] == fs[i + 1]);
        }
    }
    assert(ranges_ok(rest)) by {
        assert forall|i: int| 0 <= i < rest.len() implies 0 <= (#[trigger] rest[i]).1
            <= rest[i].2 <= 512 by {
            assert(rest[i] == fs[i + 1]);
        }
    }
    assert forall|i: int| 0 <= i < rest.len() implies (#[trigger] rest[i]).2 <= 0 || rest[i].1
        >= 100 by {
        assert(rest[i] == fs[i + 1]);
    }
    lemma_write_fields_split(zero_block(), fs);
    lemma_write_fields_keeps(first, rest, 0, 100);
    let pre = write_fields(zero_block(), fs);
    lemma_write_fields_len(zero_block(), fs);
    let cs = crate::header::checksum_of(pre) as nat;
    let fin = write_at(pre, checksum_text(cs), 148);
    assert(fin == encode_header(h).unwrap());
    let name = h.file_name@;
    let k = (100 - encode_utf8(name).len()) as nat;
    lemma_encode_concat(name, nuls(k));
    lemma_encode_nuls(k);
    assert(fin.subrange(0, 100) =~= encode_utf8(name + nuls(k)));
    encode_utf8_valid_utf8(name + nuls(k));
    encode_utf8_decode_utf8(name + nuls(k));
    lemma_trim_padded_name(name, k);
}

/// Writing a sequence of fields is writing its first field, then the rest.
proof fn lemma_write_fields_split(b: Seq<u8>, fields: Seq<(Seq<u8>, int, int)>)
    requires
        fields.len() >= 1,
    ensures
        write_fields(b, fields) == write_fields(write_at(b, fields[0].0, fields[0].1), fields.skip(1)),
    decreases fields.len(),
{
    if fields.len() == 1 {
        assert(fields.drop_last() =~= Seq::<(Seq<u8>, int, int)>::empty());
        assert(fields.skip(1) =~= Seq::<(Seq<u8>, int, int)>::empty());
        assert(write_fields(b, fields.drop_last()) == b);
        assert(fields.last() == fields[0]);
    } else {
        lemma_write_fields_split(b, fields.drop_last());
        assert(fields.drop_last()[0] == fields[0]);
        assert(fields.skip(1).drop_last() =~= fields.drop_last().skip(1));
        assert(fields.skip(1).last() == fields.last());
    }
}

/// A zero block is not a header: its checksum field holds no text.
pub proof fn lemma_zero_block_not_header()
    ensures
        !is_header(zero_block()),
{
    let f = zero_block().subrange(148, 156);
    assert(f =~= Seq::new(8, |i: int| 0u8));
    lemma_ascii_decodes(f);
    assert(as_chars(f) =~= nuls(8));
    lemma_trim_start_nuls(8);
    assert(field_text(zero_block(), 148, 156) == Some(Seq::<char>::empty()));
}

/// No content block of the entry's file would be taken for a header.
pub open spec fn content_not_header(e: Entry) -> bool {
    forall|i: int|
        0 <= i < blocks_for(e.content@.len()) ==> !is_header(#[trigger] padded_chunk(e.content@, i))
}

/// The names of the entries, in order.
pub open spec fn entry_names(entries: Seq<Entry>) -> Seq<Seq<char>> {
    entries.map_values(|e: Entry| e.header.file_name@)
}

proof fn lemma_list_skips_non_headers(a: Seq<Seq<u8>>, c: Seq<Seq<u8>>)
    requires
        forall|i: int| 0 <= i < c.len() ==> !is_header(#[trigger] c[i]),
    ensures
        list_names(a + c) == list_names(a),
    decreases c.len(),
{
    if c.len() == 0 {
        assert(a + c =~= a);
    } else {
        assert((a + c).drop_last() =~= a + c.drop_last());
        assert((a + c).last() == c[c.len() - 1]);
        lemma_list_skips_non_headers(a, c.drop_last());
    }
}

proof fn lemma_list_members(entries: Seq<Entry>)
    requires
        member_blocks(entries).is_some(),
        forall|i: int| 0 <= i < entries.len() ==> is_trimmed(#[trigger] entries[i].header.file_name@),
        forall|i: int| 0 <= i < entries.len() ==> content_not_header(#[trigger] entries[i]),
    ensures
        list_names(member_blocks(entries).unwrap()) == Ok::<Seq<Seq<char>>, crate::header::HeaderError>(
            entry_names(entries),
        ),
    decreases entries.len(),
{
    if entries.len() == 0 {
        assert(entry_names(entries) =~= Seq::<Seq<char>>::empty());
    } else {
        let prev = entries.drop_last();
        let e = entries.last();
        assert(e == entries[entries.len() - 1]);
        assert forall|i: int| 0 <= i < prev.len() implies is_trimmed(
            #[trigger] prev[i].header.file_name@,
        ) by {
            assert(prev[i] == entries[i]);
        }
        assert forall|i: int| 0 <= i < prev.len() implies content_not_header(#[trigger] prev[i]) by {
            assert(prev[i] == entries[i]);
        }
        lemma_list_members(prev);
        let bs = member_blocks(prev).unwrap();
        let h = encode_header(e.header).unwrap();
        lemma_encoded_header_is_valid(e.header);
        lemma_header_name_round_trip(e.header);
        let cb = content_blocks(e.content@);
        assert(bs.push(h).drop_last() =~= bs);
        assert(forall|i: int| 0 <= i < cb.len() ==> !is_header(#[trigger] cb[i])) by {
            assert forall|i: int| 0 <= i < cb.len() implies !is_header(#[trigger] cb[i]) by {
                assert(cb[i] == padded_chunk(e.content@, i));
            }
        }
        lemma_list_skips_non_headers(bs.push(h), cb);
        assert(entry_names(entries) =~= entry_names(prev).push(e.header.file_name@));
    }
}

/// Listing an archive that was created from files gives the files' names,
/// in the order they were given, where each name has no NUL or white space
/// at either end and no content block of a file reads as a header.
pub proof fn lemma_create_then_list(entries: Seq<Entry>)
    requires
        encode_archive(entries).is_some(),
        forall|i: int| 0 <= i < entries.len() ==> is_trimmed(#[trigger] entries[i].header.file_name@),
        forall|i: int| 0 <= i < entries.len() ==> content_not_header(#[trigger] entries[i]),
    ensures
        list_names(encode_archive(entries).unwrap()) == Ok::<Seq<Seq<char>>, crate::header::HeaderError>(
            entry_names(entries),
        ),
{
    lemma_list_members(entries);
    lemma_zero_block_not_header();
    let z = seq![zero_block(), zero_block()];
    assert(forall|i: int| 0 <= i < z.len() ==> #[trigger] z[i] == zero_block());
    lemma_list_skips_non_headers(member_blocks(entries).unwrap(), z);
}

/// Writing two runs of fields is writing their concatenation.
proof fn lemma_write_fields_concat(
    b: Seq<u8>,
    a: Seq<(Seq<u8>, int, int)>,
    c: Seq<(Seq<u8>, int, int)>,
)
    ensures
        write_fields(b, a + c) == write_fields(write_fields(b, a), c),
    decreases c.len(),
{
    if c.len() == 0 {
        assert(a + c =~= a);
    } else {
        assert((a + c).drop_last() =~= a + c.drop_last());
        assert((a + c).last() == c.last());
        lemma_write_fields_concat(b, a, c.drop_last());
    }
}

/// The size of an encoded header reads back unchanged.
pub proof fn lemma_header_size_round_trip(h: TarHeader)
    requires
        encode_header(h).is_some(),
    ensures
        crate::header::header_size(encode_header(h).unwrap()) == h.file_size as nat,
{
    let fs = header_fields(h);
    lemma_header_ranges(h);
    let a = fs.take(5);
    let rest = fs.skip(5);
    assert(fs =~= a + rest);
    assert(a.drop_last() =~= fs.take(4));
    assert(a.last() == fs[4]);
    let text = fs[4].0;
    assert(text.len() <= 12);
    crate::octal::lemma_zero_padded_read_back(h.file_size as nat, 11);
    let zp = crate::octal::zero_padded(h.file_size as nat, 11);
    assert(text == zp.push(32u8));
    assert(zp.len() == 11);
    assert(fields_fit(fs.take(4))) by {
        assert forall|i: int| 0 <= i < 4 implies (#[trigger] fs.take(4)[i]).0.len()
            <= fs.take(4)[i].2 - fs.take(4)[i].1 by {
            assert(fs.take(4)[i] == fs[i]);
        }
    }
    assert(ranges_ok(fs.take(4))) by {
        assert forall|i: int| 0 <= i < 4 implies 0 <= (#[trigger] fs.take(4)[i]).1
            <= fs.take(4)[i].2 <= 512 by {
            assert(fs.take(4)[i] == fs[i]);
        }
    }
    lemma_write_fields_len(zero_block(), fs.take(4));
    let mid = write_fields(zero_block(), a);
    assert(mid.len() == 512);
    assert(mid.subrange(124, 136) =~= text);
    assert(fields_fit(rest)) by {
        assert forall|i: int| 0 <= i < rest.len() implies (#[trigger] rest[i]).0.len()
            <= rest[i].2 - rest[i].1 by {
            assert(rest[i] == fs[i + 5]);
        }
    }
    assert(ranges_ok(rest)) by {
        assert forall|i: int| 0 <= i < rest.len() implies 0 <= (#[trigger] rest[i]).1
            <= rest[i].2 <= 512 by {
            assert(rest[i] == fs[i + 5]);
        }
    }
    assert forall|i: int| 0 <= i < rest.len() implies (#[trigger] rest[i]).2 <= 124 || rest[i].1
        >= 136 by {
        assert(rest[i] == fs[i + 5]);
    }
    lemma_write_fields_concat(zero_block(), a, rest);
    lemma_write_fields_keeps(mid, rest, 124, 136);
    let pre = write_fields(zero_block(), fs);
    lemma_write_fields_len(zero_block(), fs);
    let cs = crate::header::checksum_of(pre) as nat;
    let fin = write_at(pre, checksum_text(cs), 148);
    assert(fin == encode_header(h).unwrap());
    assert(fin.subrange(124, 136) =~= text);
    assert forall|i: int| 0 <= i < text.len() implies #[trigger] text[i] < 128 by {
        if i < 11 {
            assert(48 <= zp[i] <= 55);
        }
    }
    lemma_ascii_decodes(text);
    let chars = as_chars(text);
    let digits = as_chars(zp);
    assert(48 <= zp[0] <= 55);
    assert(!is_pad(chars[0]));
    assert(trim_start(chars) == chars);
    assert(chars.drop_last() =~= digits);
    assert(48 <= zp[10] <= 55);
    assert(!is_pad(digits.last()));
    assert(trim_end(digits) == digits);
    assert(trim_pad(chars) == digits);
    assert(field_text(fin, 124, 136) == Some(digits));
    assert(crate::octal::unsigned_digits(digits) == digits);
}

/// The state machine run from `st` over the blocks `c`.
pub open spec fn run_from(
    st: Result<(Files, Open), ExtractError>,
    c: Seq<Seq<u8>>,
) -> Result<(Files, Open), ExtractError>
    decreases c.len(),
{
    if c.len() == 0 {
        st
    } else {
        step(run_from(st, c.drop_last()), c.last())
    }
}

proof fn lemma_run_concat(a: Seq<Seq<u8>>, c: Seq<Seq<u8>>)
    ensures
        run(a + c) == run_from(run(a), c),
    decreases c.len(),
{
    if c.len() == 0 {
        assert(a + c =~= a);
    } else {
        assert((a + c).drop_last() =~= a + c.drop_last());
        assert((a + c).last() == c.last());
        lemma_run_concat(a, c.drop_last());
    }
}

/// No content block of the entry's file is all zero.
pub open spec fn content_not_zero(e: Entry) -> bool {
    forall|i: int|
        0 <= i < blocks_for(e.content@.len()) ==> !is_zero(#[trigger] padded_chunk(e.content@, i))
}

/// Content blocks that are neither zero nor headers are appended to the
/// open member.
proof fn lemma_run_content(f: Files, n: Seq<char>, size: nat, buf: Seq<u8>, c: Seq<Seq<u8>>)
    requires
        forall|i: int| 0 <= i < c.len() ==> !is_zero(#[trigger] c[i]) && !is_header(c[i]),
    ensures
        run_from(Ok((f, Some((n, size, buf)))), c) == Ok::<(Files, Open), ExtractError>(
            (f, Some((n, size, buf + flatten(c)))),
        ),
    decreases c.len(),
{
    if c.len() == 0 {
        assert(buf + flatten(c) =~= buf);
    } else {
        assert(!is_zero(c[c.len() - 1]) && !is_header(c[c.len() - 1]));
        lemma_run_content(f, n, size, buf, c.drop_last());
        assert(buf + flatten(c.drop_last()) + c.last() =~= buf + flatten(c));
    }
}

/// The content blocks of a file laid end to end are the file, zero-filled.
proof fn lemma_flatten_content(c: Seq<u8>, m: nat)
    requires
        m <= blocks_for(c.len()),
    ensures
        flatten(Seq::new(m, |i: int| padded_chunk(c, i))) == Seq::new(
            512 * m,
            |j: int| if j < c.len() { c[j] } else { 0u8 },
        ),
    decreases m,
{
    let s = Seq::new(m, |i: int| padded_chunk(c, i));
    if m > 0 {
        assert(s.drop_last() =~= Seq::new((m - 1) as nat, |i: int| padded_chunk(c, i)));
        lemma_flatten_content(c, (m - 1) as nat);
        assert(flatten(s) =~= Seq::new(
            512 * m,
            |j: int| if j < c.len() { c[j] } else { 0u8 },
        ));
    } else {
        assert(flatten(s) =~= Seq::<u8>::empty());
    }
}

proof fn lemma_content_take(c: Seq<u8>)
    ensures
        flatten(content_blocks(c)).len() >= c.len(),
        flatten(content_blocks(c)).take(c.len() as int) == c,
{
    let m = blocks_for(c.len());
    lemma_flatten_content(c, m);
    assert(content_blocks(c) =~= Seq::new(m, |i: int| padded_chunk(c, i)));
    assert(flatten(content_blocks(c)).take(c.len() as int) =~= c);
}

/// The members of the entries: each name with its content.
pub open spec fn entry_files(entries: Seq<Entry>) -> Files {
    entries.map_values(|e: Entry| (e.header.file_name@, e.content@))
}

proof fn lemma_find_absent(files: Files, n: Seq<char>)
    requires
        forall|i: int| 0 <= i < files.len() ==> (#[trigger] files[i]).0 != n,
    ensures
        find_name(files, n) == -1,
    decreases files.len(),
{
    if files.len() > 0 {
        assert(files.last() == files[files.len() - 1]);
        assert forall|i: int| 0 <= i < files.drop_last().len() implies (
        #[trigger] files.drop_last()[i]).0 != n by {
            assert(files.drop_last()[i] == files[i]);
        }
        lemma_find_absent(files.drop_last(), n);
    }
}

/// The members written out while the last entry is still open.
pub open spec fn files_while_open(entries: Seq<Entry>) -> Files {
    entry_files(entries.drop_last()).push((entries.last().header.file_name@, Seq::empty()))
}

/// The last entry as the open member, with its zero-filled content.
pub open spec fn last_open(entries: Seq<Entry>) -> Open {
    Some(
        (
            entries.last().header.file_name@,
            entries.last().content@.len(),
            flatten(content_blocks(entries.last().content@)),
        ),
    )
}

/// Closing the last entry writes out all the entries.
proof fn lemma_flush_last(entries: Seq<Entry>)
    requires
        entries.len() >= 1,
    ensures
        flush(files_while_open(entries), last_open(entries)) == Ok::<Files, ExtractError>(
            entry_files(entries),
        ),
{
    let e = entries.last();
    let pf = files_while_open(entries);
    lemma_content_take(e.content@);
    assert(find_name(pf, e.header.file_name@) == pf.len() - 1);
    assert(pf.update(pf.len() - 1, (e.header.file_name@, e.content@)) =~= entry_files(entries));
}

/// The files of a prefix of the entries.
proof fn lemma_entry_files_prefix(entries: Seq<Entry>)
    requires
        entries.len() >= 1,
    ensures
        forall|i: int|
            0 <= i < entry_files(entries.drop_last()).len() ==> (#[trigger] entry_files(
                entries.drop_last(),
            )[i]).0 == entries[i].header.file_name@,
{
}

/// The state after the members of the entries: every member but the last
/// written out, the last one open with its zero-filled content.
#[verifier::rlimit(50)]
proof fn lemma_run_members(entries: Seq<Entry>)
    requires
        member_blocks(entries).is_some(),
        entries.len() >= 1,
        forall|i: int| 0 <= i < entries.len() ==> is_trimmed(#[trigger] entries[i].header.file_name@),
        forall|i: int| 0 <= i < entries.len() ==> content_not_header(#[trigger] entries[i]),
        forall|i: int| 0 <= i < entries.len() ==> content_not_zero(#[trigger] entries[i]),
        forall|i: int|
            0 <= i < entries.len() ==> (#[trigger] entries[i]).header.file_size == entries[i].content@.len(),
        forall|i: int, j: int|
            0 <= i < j < entries.len() ==> (#[trigger] entries[i]).header.file_name@ != (
            #[trigger] entries[j]).header.file_name@,
    ensures
        run(member_blocks(entries).unwrap()) == Ok::<(Files, Open), ExtractError>(
            (files_while_open(entries), last_open(entries)),
        ),
    decreases entries.len(),
{
    let prev = entries.drop_last();
    let e = entries.last();
    assert(e == entries[entries.len() - 1]);
    assert forall|i: int| 0 <= i < prev.len() implies #[trigger] prev[i] == entries[i] by {}
    let bs = member_blocks(prev).unwrap();
    let h = encode_header(e.header).unwrap();
    let cb = content_blocks(e.content@);
    let name = e.header.file_name@;
    lemma_encoded_header_is_valid(e.header);
    lemma_header_name_round_trip(e.header);
    lemma_header_size_round_trip(e.header);
    lemma_zero_block_not_header();
    assert(!is_zero(h)) by {
        if is_zero(h) {
            assert(h =~= zero_block());
        }
    }
    assert forall|i: int| 0 <= i < cb.len() implies !is_zero(#[trigger] cb[i]) && !is_header(
        cb[i],
    ) by {
        assert(cb[i] == padded_chunk(e.content@, i));
    }
    lemma_run_concat(bs.push(h), cb);
    assert(bs.push(h).drop_last() =~= bs);
    let files_before = entry_files(prev);
    if prev.len() == 0 {
        assert(bs =~= Seq::<Seq<u8>>::empty());
        assert(files_before =~= Seq::empty());
        assert(run(bs) == Ok::<(Files, Open), ExtractError>((files_before, None)));
    } else {
        lemma_run_members(prev);
        lemma_flush_last(prev);
    }
    lemma_entry_files_prefix(entries);
    assert forall|i: int| 0 <= i < files_before.len() implies (#[trigger] files_before[i]).0
        != name by {
        assert(files_before[i].0 == entries[i].header.file_name@);
    }
    lemma_find_absent(files_before, name);
    assert(step(run(bs), h) == Ok::<(Files, Open), ExtractError>(
        (files_before.push((name, Seq::empty())), Some((name, e.content@.len(), Seq::empty()))),
    ));
    lemma_run_content(
        files_before.push((name, Seq::empty())),
        name,
        e.content@.len(),
        Seq::empty(),
        cb,
    );
    assert(Seq::<u8>::empty() + flatten(cb) =~= flatten(cb));
}

/// Extracting an archive that was created from files gives back each file's
/// bytes under its name, in the order given, where the names are distinct
/// and have no NUL or white space at either end, each header declares its
/// file's length, and no content block of a file is all zero or reads as a
/// header.
pub proof fn lemma_create_then_extract(entries: Seq<Entry>)
    requires
        encode_archive(entries).is_some(),
        forall|i: int| 0 <= i < entries.len() ==> is_trimmed(#[trigger] entries[i].header.file_name@),
        forall|i: int| 0 <= i < entries.len() ==> content_not_header(#[trigger] entries[i]),
        forall|i: int| 0 <= i < entries.len() ==> content_not_zero(#[trigger] entries[i]),
        forall|i: int|
            0 <= i < entries.len() ==> (#[trigger] entries[i]).header.file_size == entries[i].content@.len(),
        forall|i: int, j: int|
            0 <= i < j < entries.len() ==> (#[trigger] entries[i]).header.file_name@ != (
            #[trigger] entries[j]).header.file_name@,
    ensures
        extract_spec(encode_archive(entries).unwrap()) == Ok::<Files, ExtractError>(
            entry_files(entries),
        ),
{
    let bs = member_blocks(entries).unwrap();
    let z = seq![zero_block(), zero_block()];
    assert(encode_archive(entries).unwrap() == bs + z);
    lemma_run_concat(bs, z);
    assert(is_zero(zero_block()));
    assert(z.drop_last() =~= seq![zero_block()]);
    assert(seq![zero_block()].drop_last() =~= Seq::<Seq<u8>>::empty());
    assert(z.last() == zero_block());
    assert(seq![zero_block()].last() == zero_block());
    let one = seq![zero_block()];
    assert(run_from(run(bs), one.drop_last()) == run(bs));
    assert(run_from(run(bs), one) == step(run(bs), zero_block()));
    assert(run_from(run(bs), z) == step(run_from(run(bs), one), zero_block()));
    if entries.len() == 0 {
        assert(bs =~= Seq::<Seq<u8>>::empty());
        assert(entry_files(entries) =~= Seq::empty());
        assert(run(bs) == Ok::<(Files, Open), ExtractError>((Seq::empty(), None)));
    } else {
        lemma_run_members(entries);
        lemma_flush_last(entries);
        assert(run_from(run(bs), one) == Ok::<(Files, Open), ExtractError>(
            (entry_files(entries), None),
        ));
    }
}

proof fn lemma_flatten_len(c: Seq<Seq<u8>>)
    requires
        forall|i: int| 0 <= i < c.len() ==> (#[trigger] c[i]).len() == 512,
    ensures
        flatten(c).len() == 512 * c.len(),
    decreases c.len(),
{
    if c.len() > 0 {
        assert(c.last() == c[c.len() - 1]);
        lemma_flatten_len(c.drop_last());
    }
}

/// The state after a header block that opens a member.
proof fn lemma_first_header(h: Seq<u8>, n: Seq<char>)
    requires
        h.len() == 512,
        is_header(h),
        header_name(h) == Some(n),
    ensures
        run(seq![h]) == Ok::<(Files, Open), ExtractError>(
            (seq![(n, Seq::<u8>::empty())], Some((n, crate::header::header_size(h), Seq::empty()))),
        ),
{
    lemma_zero_block_not_header();
    assert(!is_zero(h)) by {
        if is_zero(h) {
            assert(h =~= zero_block());
        }
    }
    assert(seq![h].drop_last() =~= Seq::<Seq<u8>>::empty());
    assert(seq![h].last() == h);
    assert(run(Seq::<Seq<u8>>::empty()) == Ok::<(Files, Open), ExtractError>((Seq::empty(), None)));
    assert(find_name(Seq::<(Seq<char>, Seq<u8>)>::empty(), n) == -1);
    assert(Seq::<(Seq<char>, Seq<u8>)>::empty().push((n, Seq::<u8>::empty())) =~= seq![
        (n, Seq::<u8>::empty()),
    ]);
}

/// A member whose header declares more bytes than its content blocks hold
/// fails with an incomplete-file error when it is closed, instead of being
/// cut or padded.
pub proof fn lemma_short_member_fails(h: Seq<u8>, n: Seq<char>, content: Seq<Seq<u8>>)
    requires
        h.len() == 512,
        is_header(h),
        header_name(h) == Some(n),
        forall|i: int|
            0 <= i < content.len() ==> (#[trigger] content[i]).len() == 512 && !is_zero(content[i])
                && !is_header(content[i]),
        crate::header::header_size(h) > 512 * content.len(),
    ensures
        extract_spec(seq![h] + content + seq![zero_block()]) == Err::<Files, ExtractError>(
            ExtractError::IncompleteFile,
        ),
{
    lemma_first_header(h, n);
    let size = crate::header::header_size(h);
    let f = seq![(n, Seq::<u8>::empty())];
    lemma_run_content(f, n, size, Seq::empty(), content);
    lemma_run_concat(seq![h], content);
    lemma_flatten_len(content);
    let all = seq![h] + content + seq![zero_block()];
    lemma_run_concat(seq![h] + content, seq![zero_block()]);
    assert(seq![zero_block()].drop_last() =~= Seq::<Seq<u8>>::empty());
    assert(is_zero(zero_block()));
    assert((Seq::<u8>::empty() + flatten(content)).len() < size);
    let mid = Ok::<(Files, Open), ExtractError>(
        (f, Some((n, size, Seq::<u8>::empty() + flatten(content)))),
    );
    assert(run(seq![h] + content) == mid);
    assert(run_from(mid, seq![zero_block()]) == step(run_from(mid, Seq::empty()), zero_block()));
    assert(run(all) == step(mid, zero_block()));
}

/// An archive that runs out while a member holds fewer bytes than its header
/// declares fails with an incomplete-file error, instead of returning the
/// bytes that were read.
pub proof fn lemma_cut_off_member_fails(h: Seq<u8>, n: Seq<char>, content: Seq<Seq<u8>>)
    requires
        h.len() == 512,
        is_header(h),
        header_name(h) == Some(n),
        forall|i: int|
            0 <= i < content.len() ==> (#[trigger] content[i]).len() == 512 && !is_zero(content[i])
                && !is_header(content[i]),
        crate::header::header_size(h) > 512 * content.len(),
    ensures
        extract_spec(seq![h] + content) == Err::<Files, ExtractError>(ExtractError::IncompleteFile),
{
    lemma_first_header(h, n);
    let size = crate::header::header_size(h);
    let f = seq![(n, Seq::<u8>::empty())];
    lemma_run_content(f, n, size, Seq::empty(), content);
    lemma_run_concat(seq![h], content);
    lemma_flatten_len(content);
    assert((Seq::<u8>::empty() + flatten(content)).len() < size);
}

/// A member whose header declares no bytes, closed by the next block,
/// extracts to empty content and takes no content block.
pub proof fn lemma_empty_member(h: Seq<u8>, n: Seq<char>)
    requires
        h.len() == 512,
        is_header(h),
        header_name(h) == Some(n),
        crate::header::header_size(h) == 0,
    ensures
        extract_spec(seq![h, zero_block()]) == Ok::<Files, ExtractError>(
            seq![(n, Seq::<u8>::empty())],
        ),
{
    lemma_first_header(h, n);
    let f = seq![(n, Seq::<u8>::empty())];
    assert(seq![h, zero_block()].drop_last() =~= seq![h]);
    assert(is_zero(zero_block()));
    assert(find_name(f, n) == 0);
    assert(Seq::<u8>::empty().take(0) =~= Seq::<u8>::empty());
    assert(f.update(0, (n, Seq::<u8>::empty().take(0))) =~= f);
    assert(seq![h, zero_block()].last() == zero_block());
}

} // verus!
