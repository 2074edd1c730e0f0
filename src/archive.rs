use vstd::prelude::*;
use crate::block::{
    blocks_for, file_to_blocks, is_zero, is_zero_block, padded_chunk, views, Block,
};
use crate::header::{
    create_header_block, encode_header, extract_file_info, extract_file_name, header_name,
    header_size, is_header, is_valid_header, zero_block, EncodeError, HeaderError, TarHeader,
};

verus! {

/// The member names of the header blocks, in order, or the error of the
/// first header whose name is not UTF-8.
pub open spec fn list_names(blocks: Seq<Seq<u8>>) -> Result<Seq<Seq<char>>, HeaderError>
    decreases blocks.len(),
{
    if blocks.len() == 0 {
        Ok(Seq::empty())
    } else {
        match list_names(blocks.drop_last()) {
            Err(e) => Err(e),
            Ok(names) => if is_header(blocks.last()) {
                match header_name(blocks.last()) {
                    Some(n) => Ok(names.push(n)),
                    None => Err(HeaderError::InvalidName),
                }
            } else {
                Ok(names)
            },
        }
    }
}

/// Lists the names of an archive's members, in archive order.
pub fn get_file_names(blocks: &Vec<Block>) -> (r: Result<Vec<String>, HeaderError>)
    ensures
        match list_names(views(blocks@)) {
            Ok(names) => r.is_ok() && r.unwrap()@.map_values(|s: String| s@) == names,
            Err(e) => r == Err::<Vec<String>, HeaderError>(e),
        },
{
    let mut file_names: Vec<String> = Vec::new();
    let mut k: usize = 0;
    assert(views(blocks@.take(0)) =~= Seq::<Seq<u8>>::empty());
    assert(file_names@.map_values(|s: String| s@) =~= Seq::<Seq<char>>::empty());
    while k < blocks.len()
        invariant
            k <= blocks@.len(),
            list_names(views(blocks@.take(k as int))) == Ok::<Seq<Seq<char>>, HeaderError>(
                file_names@.map_values(|s: String| s@),
            ),
        decreases blocks@.len() - k,
    {
        let block = &blocks[k];
        let ghost pre = views(blocks@.take(k as int));
        assert(views(blocks@.take(k + 1)).drop_last() =~= pre);
        assert(views(blocks@.take(k + 1)).last() == block@);
        if is_valid_header(block) {
            match extract_file_name(block) {
                Ok(name) => {
                    let ghost before = file_names@;
                    file_names.push(name);
                    assert(file_names@.map_values(|s: String| s@) =~= before.map_values(
                        |s: String| s@,
                    ).push(name@));
                },
                Err(e) => {
                    proof {
                        lemma_list_error_stays(views(blocks@), k + 1);
                    }
                    assert(views(blocks@).take(k + 1) =~= views(blocks@.take(k + 1)));
                    return Err(e);
                },
            }
        }
        k = k + 1;
    }
    assert(blocks@.take(blocks@.len() as int) =~= blocks@);
    Ok(file_names)
}

/// Once listing a prefix fails, listing the whole sequence fails the same way.
proof fn lemma_list_error_stays(blocks: Seq<Seq<u8>>, k: int)
    requires
        0 <= k <= blocks.len(),
        list_names(blocks.take(k)).is_err(),
    ensures
        list_names(blocks) == list_names(blocks.take(k)),
    decreases blocks.len() - k,
{
    if k < blocks.len() {
        assert(blocks.take(k + 1).drop_last() =~= blocks.take(k));
        lemma_list_error_stays(blocks, k + 1);
    } else {
        assert(blocks.take(k) =~= blocks);
    }
}

/// Why an archive could not be extracted.
#[derive(Debug, Clone, Copy, PartialEq, Eq)]
pub enum ExtractError {
    /// A header's name field is not UTF-8.
    InvalidName,
    /// A content block came while no member was open.
    NoOpenMember,
    /// A member ended with fewer bytes than its header declared.
    IncompleteFile,
}

/// Extracted members: each name once, with its content.
pub type Files = Seq<(Seq<char>, Seq<u8>)>;

/// The open member: its name, its declared size and the bytes read so far.
pub type Open = Option<(Seq<char>, nat, Seq<u8>)>;

/// The position of `name` in `files`, searching from the end, or -1.
pub open spec fn find_name(files: Files, name: Seq<char>) -> int
    decreases files.len(),
{
    if files.len() == 0 {
        -1
    } else if files.last().0 == name {
        files.len() - 1
    } else {
        find_name(files.drop_last(), name)
    }
}

/// No name appears twice.
pub open spec fn distinct_names(files: Files) -> bool {
    forall|i: int, j: int| 0 <= i < j < files.len() ==> (#[trigger] files[i]).0 != (#[trigger] files[j]).0
}

proof fn lemma_find_name(files: Files, name: Seq<char>)
    ensures
        find_name(files, name) == -1 ==> forall|i: int|
            0 <= i < files.len() ==> (#[trigger] files[i]).0 != name,
        find_name(files, name) != -1 ==> 0 <= find_name(files, name) < files.len() && files[find_name(
            files,
            name,
        )].0 == name,
    decreases files.len(),
{
    if files.len() > 0 {
        lemma_find_name(files.drop_last(), name);
        assert(forall|i: int| 0 <= i < files.len() - 1 ==> files.drop_last()[i] == files[i]);
    }
}

/// Setting a member's content keeps the names distinct.
proof fn lemma_put_distinct(files: Files, name: Seq<char>, content: Seq<u8>)
    requires
        distinct_names(files),
    ensures
        distinct_names(put(files, name, content)),
{
    lemma_find_name(files, name);
    let r = put(files, name, content);
    assert forall|i: int, j: int| 0 <= i < j < r.len() implies (#[trigger] r[i]).0 != (
    #[trigger] r[j]).0 by {
        if find_name(files, name) == -1 {
            if j == files.len() {
                assert(files[i].0 != name);
            } else {
                assert(files[i] == r[i] && files[j] == r[j]);
            }
        } else {
            let k = find_name(files, name);
            if i != k && j != k {
                assert(files[i] == r[i] && files[j] == r[j]);
            } else {
                assert(files[k].0 == name);
            }
        }
    }
}

/// Every state the extraction reaches holds each name at most once.
proof fn lemma_run_distinct(blocks: Seq<Seq<u8>>)
    ensures
        run(blocks) matches Ok((f, _)) ==> distinct_names(f),
    decreases blocks.len(),
{
    if blocks.len() > 0 {
        lemma_run_distinct(blocks.drop_last());
        match run(blocks.drop_last()) {
            Ok((f, open)) => {
                match open {
                    Some((n, size, buf)) => {
                        lemma_put_distinct(f, n, buf.take(size as int));
                        match flush(f, open) {
                            Ok(g) => {
                                if let Some(m) = header_name(blocks.last()) {
                                    lemma_put_distinct(g, m, Seq::empty());
                                }
                            },
                            Err(_) => {},
                        }
                    },
                    None => {
                        if let Some(m) = header_name(blocks.last()) {
                            lemma_put_distinct(f, m, Seq::empty());
                        }
                    },
                }
            },
            Err(_) => {},
        }
    }
}

/// `files` with the content of `name` set to `content`: in its place where
/// the name is there, otherwise at the end.
pub open spec fn put(files: Files, name: Seq<char>, content: Seq<u8>) -> Files {
    let i = find_name(files, name);
    if i >= 0 {
        files.update(i, (name, content))
    } else {
        files.push((name, content))
    }
}

/// Ends the open member, if any: its content is cut to its declared size,
/// which it must reach.
pub open spec fn flush(files: Files, open: Open) -> Result<Files, ExtractError> {
    match open {
        None => Ok(files),
        Some((name, size, buf)) => if buf.len() < size {
            Err(ExtractError::IncompleteFile)
        } else {
            Ok(put(files, name, buf.take(size as int)))
        },
    }
}

/// One block of the extraction state machine: a zero block closes the open
/// member, a header closes it and opens a new one, any other block is
/// content of the open member.
pub open spec fn step(st: Result<(Files, Open), ExtractError>, b: Seq<u8>) -> Result<
    (Files, Open),
    ExtractError,
> {
    match st {
        Err(e) => Err(e),
        Ok((files, open)) => if is_zero(b) {
            match flush(files, open) {
                Err(e) => Err(e),
                Ok(f) => Ok((f, None)),
            }
        } else if is_header(b) {
            match flush(files, open) {
                Err(e) => Err(e),
                Ok(f) => match header_name(b) {
                    None => Err(ExtractError::InvalidName),
                    Some(n) => Ok((put(f, n, Seq::empty()), Some((n, header_size(b), Seq::empty())))),
                },
            }
        } else {
            match open {
                None => Err(ExtractError::NoOpenMember),
                Some((n, size, buf)) => Ok((files, Some((n, size, buf + b)))),
            }
        },
    }
}

/// The state after the blocks, in order.
pub open spec fn run(blocks: Seq<Seq<u8>>) -> Result<(Files, Open), ExtractError>
    decreases blocks.len(),
{
    if blocks.len() == 0 {
        Ok((Seq::empty(), None))
    } else {
        step(run(blocks.drop_last()), blocks.last())
    }
}

/// The members an archive extracts to. A member still open when the blocks
/// run out is closed as a zero block would close it.
pub open spec fn extract_spec(blocks: Seq<Seq<u8>>) -> Result<Files, ExtractError> {
    match run(blocks) {
        Err(e) => Err(e),
        Ok((files, open)) => flush(files, open),
    }
}

pub open spec fn files_view(files: Seq<(String, Vec<u8>)>) -> Files {
    files.map_values(|p: (String, Vec<u8>)| (p.0@, p.1@))
}

pub open spec fn open_view(open: Option<(String, u64, Vec<u8>)>) -> Open {
    match open {
        None => None,
        Some((n, s, b)) => Some((n@, s as nat, b@)),
    }
}

/// Sets the content of `name`, in its place or at the end.
fn put_file(files: &mut Vec<(String, Vec<u8>)>, name: String, content: Vec<u8>)
    ensures
        files_view(final(files)@) == put(files_view(old(files)@), name@, content@),
{
    let ghost fv = files_view(files@);
    let mut i: usize = files.len();
    assert(fv.take(i as int) =~= fv);
    while i > 0
        invariant
            i <= files@.len(),
            files@ == old(files)@,
            fv == files_view(files@),
            find_name(fv, name@) == find_name(fv.take(i as int), name@),
        decreases i,
    {
        assert(fv.take(i as int).last() == fv[i - 1]);
        assert(fv.take(i as int).drop_last() =~= fv.take(i - 1));
        if files[i - 1].0 == name {
            files[i - 1] = (name, content);
            assert(files_view(files@) =~= fv.update(i - 1, (name@, content@)));
            return;
        }
        i = i - 1;
    }
    files.push((name, content));
    assert(files_view(files@) =~= fv.push((name@, content@)));
}

/// Closes the open member, cutting it to its declared size.
fn truncate_file_content(
    files: &mut Vec<(String, Vec<u8>)>,
    open: Option<(String, u64, Vec<u8>)>,
) -> (r: Result<(), ExtractError>)
    ensures
        match flush(files_view(old(files)@), open_view(open)) {
            Ok(f) => r.is_ok() && files_view(final(files)@) == f,
            Err(e) => r == Err::<(), ExtractError>(e) && final(files)@ == old(files)@,
        },
{
    match open {
        None => Ok(()),
        Some((name, size, mut buf)) => {
            if (buf.len() as u64) < size {
                return Err(ExtractError::IncompleteFile);
            }
            buf.truncate(size as usize);
            put_file(files, name, buf);
            Ok(())
        },
    }
}

/// Reassembles the members of an archive from its blocks.
pub fn extract_files(blocks: &Vec<Block>) -> (r: Result<Vec<(String, Vec<u8>)>, ExtractError>)
    ensures
        match extract_spec(views(blocks@)) {
            Ok(f) => r.is_ok() && files_view(r.unwrap()@) == f,
            Err(e) => r == Err::<Vec<(String, Vec<u8>)>, ExtractError>(e),
        },
        r.is_ok() ==> distinct_names(files_view(r.unwrap()@)),
{
    let mut files: Vec<(String, Vec<u8>)> = Vec::new();
    let mut open: Option<(String, u64, Vec<u8>)> = None;
    let mut k: usize = 0;
    assert(views(blocks@.take(0)) =~= Seq::<Seq<u8>>::empty());
    assert(files_view(files@) =~= Seq::empty());
    while k < blocks.len()
        invariant
            k <= blocks@.len(),
            run(views(blocks@.take(k as int))) == Ok::<(Files, Open), ExtractError>(
                (files_view(files@), open_view(open)),
            ),
        decreases blocks@.len() - k,
    {
        let block = &blocks[k];
        assert(views(blocks@.take(k + 1)).drop_last() =~= views(blocks@.take(k as int)));
        assert(views(blocks@.take(k + 1)).last() == block@);
        let ghost st = run(views(blocks@.take(k + 1)));
        assert(views(blocks@).take(k + 1) =~= views(blocks@.take(k + 1)));
        if is_zero_block(block) {
            let cur = open;
            open = None;
            if let Err(e) = truncate_file_content(&mut files, cur) {
                assert(views(blocks@).take(k + 1) =~= views(blocks@.take(k + 1)));
                proof {
                    lemma_run_error_stays(views(blocks@), k + 1);
                }
                return Err(e);
            }
        } else if is_valid_header(block) {
            let cur = open;
            open = None;
            if let Err(e) = truncate_file_content(&mut files, cur) {
                assert(views(blocks@).take(k + 1) =~= views(blocks@.take(k + 1)));
                proof {
                    lemma_run_error_stays(views(blocks@), k + 1);
                }
                return Err(e);
            }
            match extract_file_info(block) {
                Ok((name, size)) => {
                    put_file(&mut files, name.clone(), Vec::new());
                    open = Some((name, size, Vec::new()));
                },
                Err(_) => {
                    assert(header_name(block@).is_none());
                    assert(st.is_err());
                    assert(views(blocks@).take(k + 1) =~= views(blocks@.take(k + 1)));
                    proof {
                        lemma_run_error_stays(views(blocks@), k + 1);
                    }
                    return Err(ExtractError::InvalidName);
                },
            }
        } else {
            match open {
                None => {
                    assert(views(blocks@).take(k + 1) =~= views(blocks@.take(k + 1)));
                    proof {
                        lemma_run_error_stays(views(blocks@), k + 1);
                    }
                    return Err(ExtractError::NoOpenMember);
                },
                Some((name, size, mut buf)) => {
                    let ghost before = buf@;
                    buf.extend_from_slice(block.as_slice());
                    assert(buf@ =~= before + block@);
                    open = Some((name, size, buf));
                },
            }
        }
        assert(open_view(open) == st.unwrap().1);
        k = k + 1;
    }
    assert(blocks@.take(blocks@.len() as int) =~= blocks@);
    proof {
        lemma_run_distinct(views(blocks@));
    }
    proof {
        if let Some((n, size, buf)) = open_view(open) {
            lemma_put_distinct(files_view(files@), n, buf.take(size as int));
        }
    }
    truncate_file_content(&mut files, open)?;
    Ok(files)
}

/// Once the state machine fails on a prefix, it fails the same way on the
/// whole sequence.
proof fn lemma_run_error_stays(blocks: Seq<Seq<u8>>, k: int)
    requires
        0 <= k <= blocks.len(),
        run(blocks.take(k)).is_err(),
    ensures
        run(blocks) == run(blocks.take(k)),
        extract_spec(blocks) == extract_spec(blocks.take(k)),
    decreases blocks.len() - k,
{
    if k < blocks.len() {
        assert(blocks.take(k + 1).drop_last() =~= blocks.take(k));
        lemma_run_error_stays(blocks, k + 1);
    } else {
        assert(blocks.take(k) =~= blocks);
    }
}

/// A file to archive: its header and its bytes.
pub struct Entry {
    pub header: TarHeader,
    pub content: Vec<u8>,
}

/// The content blocks of a file, the last one zero-filled.
pub open spec fn content_blocks(c: Seq<u8>) -> Seq<Seq<u8>> {
    Seq::new(blocks_for(c.len()), |i: int| padded_chunk(c, i))
}

/// Each entry's header block followed by its content blocks, or `None`
/// where a header does not encode.
pub open spec fn member_blocks(entries: Seq<Entry>) -> Option<Seq<Seq<u8>>>
    decreases entries.len(),
{
    if entries.len() == 0 {
        Some(Seq::empty())
    } else {
        match (member_blocks(entries.drop_last()), encode_header(entries.last().header)) {
            (Some(bs), Some(h)) => Some(bs.push(h) + content_blocks(entries.last().content@)),
            _ => None,
        }
    }
}

/// The archive of the entries: their blocks and two zero blocks.
pub open spec fn encode_archive(entries: Seq<Entry>) -> Option<Seq<Seq<u8>>> {
    match member_blocks(entries) {
        Some(bs) => Some(bs + seq![zero_block(), zero_block()]),
        None => None,
    }
}

/// Builds the blocks of an archive holding the entries, in order.
pub fn create_tarball(entries: &Vec<Entry>) -> (r: Result<Vec<Block>, EncodeError>)
    ensures
        match encode_archive(entries@) {
            Some(bs) => r.is_ok() && views(r.unwrap()@) == bs,
            None => r == Err::<Vec<Block>, EncodeError>(EncodeError::FieldTooWide),
        },
{
    let mut tarball: Vec<Block> = Vec::new();
    let mut k: usize = 0;
    assert(entries@.take(0) =~= Seq::<Entry>::empty());
    assert(views(tarball@) =~= Seq::<Seq<u8>>::empty());
    while k < entries.len()
        invariant
            k <= entries@.len(),
            member_blocks(entries@.take(k as int)) == Some(views(tarball@)),
        decreases entries@.len() - k,
    {
        let entry = &entries[k];
        assert(entries@.take(k + 1).drop_last() =~= entries@.take(k as int));
        let header_block = match create_header_block(&entry.header) {
            Ok(b) => b,
            Err(e) => {
                proof {
                    lemma_members_none_stays(entries@, k + 1);
                }
                return Err(e);
            },
        };
        let mut content = file_to_blocks(&entry.content);
        let ghost before = views(tarball@);
        let ghost cb = views(content@);
        assert(cb =~= content_blocks(entry.content@));
        tarball.push(header_block);
        tarball.append(&mut content);
        assert(views(tarball@) =~= before.push(header_block@) + cb);
        k = k + 1;
    }
    assert(entries@.take(entries@.len() as int) =~= entries@);
    let ghost before = views(tarball@);
    let z: Block = [0u8; 512];
    assert(z@ =~= zero_block());
    tarball.push(z);
    tarball.push(z);
    assert(views(tarball@) =~= before + seq![zero_block(), zero_block()]);
    Ok(tarball)
}

/// Once a prefix of the entries fails to encode, so do all of them.
proof fn lemma_members_none_stays(entries: Seq<Entry>, k: int)
    requires
        0 <= k <= entries.len(),
        member_blocks(entries.take(k)).is_none(),
    ensures
        member_blocks(entries).is_none(),
    decreases entries.len() - k,
{
    if k < entries.len() {
        assert(entries.take(k + 1).drop_last() =~= entries.take(k));
        lemma_members_none_stays(entries, k + 1);
    } else {
        assert(entries.take(k) =~= entries);
    }
}

} // verus!
