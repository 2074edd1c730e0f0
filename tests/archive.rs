use ctar::archive::{create_tarball, extract_files, get_file_names, Entry, ExtractError};
use ctar::block::{blocks_to_bytes, file_to_blocks, is_zero_block, to_blocks, Block};
use ctar::cli::{has_tar_extension, plan_command, Args, Command, CommandError};
use ctar::header::{
    calculate_block_checksum, create_header, create_header_block, extract_content_size,
    extract_file_info, extract_file_name, insert_in_block, is_valid_header, EncodeError,
    HeaderError, TarHeader,
};
use ctar::octal::{format_octal, parse_octal};
use ctar::text::trim_chars;

fn header_for(name: &str, size: u64) -> TarHeader {
    create_header(
        name,
        0o100644,
        1000,
        1000,
        size,
        1_700_000_000,
        Some("alice".to_string()),
        Some("staff".to_string()),
    )
}

fn entry(name: &str, content: &[u8]) -> Entry {
    Entry { header: header_for(name, content.len() as u64), content: content.to_vec() }
}

fn archive_of(entries: &Vec<Entry>) -> Vec<Block> {
    let bytes = blocks_to_bytes(&create_tarball(entries).unwrap());
    to_blocks(&bytes)
}

fn content_of<'a>(files: &'a [(String, Vec<u8>)], name: &str) -> &'a [u8] {
    &files.iter().find(|(n, _)| n == name).unwrap().1
}

/// Rewrites the checksum field so that the block validates again.
fn reseal(block: &mut Block) {
    let sum = calculate_block_checksum(block);
    let mut text = format_octal(sum as u64, 7, 0);
    text.push(b' ');
    insert_in_block(block, &text, 148, 156).unwrap();
}

#[test]
fn should_decode_content_of_tar_from_stdin() {
    let blocks = archive_of(&vec![entry("file.txt", b"Hello World")]);
    assert_eq!(get_file_names(&blocks).unwrap(), vec!["file.txt".to_string()]);
}

#[test]
fn should_decode_content_of_tar_made_of_one_file() {
    let blocks = archive_of(&vec![entry("file.txt", b"Hello World")]);
    assert_eq!(get_file_names(&blocks).unwrap(), vec!["file.txt".to_string()]);
}

#[test]
fn should_decode_content_of_tar_made_of_two_file() {
    let blocks = archive_of(&vec![
        entry("first.txt", b"Hello World"),
        entry("second.txt", b"I have a dream!"),
    ]);
    assert_eq!(
        get_file_names(&blocks).unwrap(),
        vec!["first.txt".to_string(), "second.txt".to_string()]
    );
}

#[test]
fn should_extract_file_from_tar() {
    let blocks = archive_of(&vec![entry("file.txt", b"Hello World")]);
    let files = extract_files(&blocks).unwrap();
    assert_eq!(content_of(&files, "file.txt"), b"Hello World");
}

#[test]
fn create_then_list_keeps_names_in_order() {
    let entries = vec![entry("c.txt", b"3"), entry("a.txt", b"1"), entry("b.txt", b"2")];
    let names = get_file_names(&archive_of(&entries)).unwrap();
    assert_eq!(names, vec!["c.txt", "a.txt", "b.txt"]);
}

#[test]
fn create_then_extract_short_and_multi_block() {
    let short = b"short content".to_vec();
    let long: Vec<u8> = (0..1500u32).map(|i| (i % 251) as u8 + 1).collect();
    let exact: Vec<u8> = vec![7u8; 1024];
    let entries = vec![entry("short", &short), entry("long", &long), entry("exact", &exact)];
    let files = extract_files(&archive_of(&entries)).unwrap();
    assert_eq!(files.len(), 3);
    assert_eq!(content_of(&files, "short"), &short[..]);
    assert_eq!(content_of(&files, "long"), &long[..]);
    assert_eq!(content_of(&files, "exact"), &exact[..]);
}

#[test]
fn encoded_header_validates() {
    for (name, size) in [("x", 0u64), ("greeting.txt", 11), ("a/b/c.bin", 123456)] {
        let block = create_header_block(&header_for(name, size)).unwrap();
        assert!(is_valid_header(&block));
        assert_eq!(extract_file_name(&block).unwrap(), name);
        assert_eq!(extract_content_size(&block), size);
    }
}

#[test]
fn two_members_list_and_extract() {
    let blocks = archive_of(&vec![entry("a.txt", b"alpha"), entry("b.txt", b"bravo!")]);
    assert_eq!(get_file_names(&blocks).unwrap(), vec!["a.txt", "b.txt"]);
    let files = extract_files(&blocks).unwrap();
    assert_eq!(files.len(), 2);
    assert_eq!(content_of(&files, "a.txt"), b"alpha");
    assert_eq!(content_of(&files, "b.txt"), b"bravo!");
}

#[test]
fn declared_size_beyond_content_is_incomplete() {
    let mut blocks = archive_of(&vec![entry("big.bin", b"only a little")]);
    let mut header = blocks[0];
    let size = format_octal(5000, 12, b' ');
    insert_in_block(&mut header, &size, 124, 136).unwrap();
    reseal(&mut header);
    blocks[0] = header;
    assert!(is_valid_header(&blocks[0]));
    assert_eq!(extract_files(&blocks), Err(ExtractError::IncompleteFile));
}

#[test]
fn archive_cut_off_inside_a_member_is_incomplete() {
    let content: Vec<u8> = (0..1500u32).map(|i| (i % 200) as u8 + 1).collect();
    let blocks = archive_of(&vec![entry("cut.bin", &content)]);
    assert_eq!(extract_files(&blocks[..3].to_vec()), Err(ExtractError::IncompleteFile));
    assert_eq!(extract_files(&blocks[..1].to_vec()), Err(ExtractError::IncompleteFile));
}

#[test]
fn archive_without_terminator_is_cut_to_size() {
    let blocks = archive_of(&vec![entry("a.txt", b"alpha")]);
    let files = extract_files(&blocks[..2].to_vec()).unwrap();
    assert_eq!(files, vec![("a.txt".to_string(), b"alpha".to_vec())]);
}

#[test]
fn format_octal_wide_field() {
    assert_eq!(format_octal(8, 100, b' ').len(), 100);
}

#[test]
fn zero_byte_member_extracts_empty() {
    let blocks = archive_of(&vec![entry("empty", b""), entry("next", b"data")]);
    assert_eq!(blocks.len(), 1 + 1 + 1 + 2);
    let files = extract_files(&blocks).unwrap();
    assert_eq!(content_of(&files, "empty"), b"");
    assert_eq!(content_of(&files, "next"), b"data");
}

#[test]
fn greeting_example_round_trips() {
    let bytes =
        blocks_to_bytes(&create_tarball(&vec![entry("greeting.txt", b"Hello World")]).unwrap());
    assert_eq!(bytes.len(), 4 * 512);
    let files = extract_files(&to_blocks(&bytes)).unwrap();
    assert_eq!(files, vec![("greeting.txt".to_string(), b"Hello World".to_vec())]);
}

#[test]
fn checksum_of_zero_block_counts_spaces() {
    assert_eq!(calculate_block_checksum(&[0u8; 512]), 256);
    let mut b = [0u8; 512];
    b[0] = 1;
    b[150] = 200;
    b[511] = 2;
    assert_eq!(calculate_block_checksum(&b), 259);
}

#[test]
fn zero_and_garbage_blocks_are_not_headers() {
    assert!(!is_valid_header(&[0u8; 512]));
    assert!(is_zero_block(&[0u8; 512]));
    let mut b = [b'x'; 512];
    assert!(!is_valid_header(&b));
    assert!(!is_zero_block(&b));
    b[148..156].copy_from_slice(b"0000001\0");
    assert!(!is_valid_header(&b));
}

#[test]
fn format_octal_pads_and_terminates() {
    assert_eq!(format_octal(0o644, 7, b' '), b"000644 ".to_vec());
    assert_eq!(format_octal(11, 12, b' '), b"00000000013 ".to_vec());
    assert_eq!(format_octal(0, 1, b' '), b"0".to_vec());
    assert_eq!(format_octal(0o12345670, 7, 0), b"12345670\0".to_vec());
}

#[test]
fn parse_octal_accepts_plus_and_rejects_bad_text() {
    let chars = |s: &str| s.chars().collect::<Vec<char>>();
    assert_eq!(parse_octal(&chars("0000013"), u64::MAX), Some(11));
    assert_eq!(parse_octal(&chars("+17"), u64::MAX), Some(15));
    assert_eq!(parse_octal(&chars(""), u64::MAX), None);
    assert_eq!(parse_octal(&chars("+"), u64::MAX), None);
    assert_eq!(parse_octal(&chars("-1"), u64::MAX), None);
    assert_eq!(parse_octal(&chars("18"), u64::MAX), None);
    assert_eq!(parse_octal(&chars("37777777777"), u32::MAX as u64), Some(u32::MAX as u64));
    assert_eq!(parse_octal(&chars("40000000000"), u32::MAX as u64), None);
}

#[test]
fn trim_removes_nul_and_white_space() {
    let v: Vec<char> = "\0 \u{3000}name x\t\0\0".chars().collect();
    assert_eq!(trim_chars(&v), "name x".chars().collect::<Vec<char>>());
    assert_eq!(trim_chars(&vec!['\0', ' ']), Vec::<char>::new());
}

#[test]
fn name_field_is_trimmed_and_decoded() {
    let mut b = create_header_block(&header_for("héllo", 3)).unwrap();
    assert_eq!(extract_file_info(&b).unwrap(), ("héllo".to_string(), 3));
    b[0] = 0xff;
    reseal(&mut b);
    assert!(is_valid_header(&b));
    assert_eq!(extract_file_name(&b), Err(HeaderError::InvalidName));
    let blocks = vec![b, [0u8; 512]];
    assert_eq!(get_file_names(&blocks), Err(HeaderError::InvalidName));
    assert_eq!(extract_files(&blocks), Err(ExtractError::InvalidName));
}

#[test]
fn content_without_header_has_no_open_member() {
    let blocks = vec![[b'x'; 512]];
    assert_eq!(extract_files(&blocks), Err(ExtractError::NoOpenMember));
    let mut after_zero = archive_of(&vec![entry("a", b"a")]);
    after_zero.insert(3, [b'y'; 512]);
    assert_eq!(extract_files(&after_zero), Err(ExtractError::NoOpenMember));
}

#[test]
fn unreadable_size_reads_as_zero() {
    let mut b = create_header_block(&header_for("n", 0)).unwrap();
    insert_in_block(&mut b, &b"zz".to_vec(), 124, 136).unwrap();
    assert_eq!(extract_content_size(&b), 0);
}

#[test]
fn too_long_fields_fail_to_encode() {
    let long = "n".repeat(101);
    assert_eq!(create_header_block(&header_for(&long, 1)), Err(EncodeError::FieldTooWide));
    let hundred = "n".repeat(100);
    assert!(create_header_block(&header_for(&hundred, 1)).is_ok());
    assert_eq!(create_header_block(&header_for("n", 1 << 33)), Err(EncodeError::FieldTooWide));
    assert_eq!(create_tarball(&vec![entry(&long, b"")]), Err(EncodeError::FieldTooWide));
    let mut block = [0u8; 512];
    assert_eq!(insert_in_block(&mut block, &vec![1, 2, 3], 0, 2), Err(EncodeError::FieldTooWide));
    assert_eq!(block, [0u8; 512]);
}

#[test]
fn header_defaults_and_mode_mask() {
    let h = create_header("f", 0o100755, 1, 2, 3, 4, None, None);
    assert_eq!(h.mode, 0o755);
    assert_eq!(h.magic, "ustar");
    assert_eq!(h.version, "00");
    assert_eq!(h.typeflag, 0);
    assert_eq!(h.uname, "");
    assert_eq!(h.gname, "");
    let b = create_header_block(&h).unwrap();
    assert_eq!(&b[100..108], b"000755 \0");
    assert_eq!(&b[156..157], b"0");
    assert_eq!(&b[257..263], b"ustar\0");
    assert_eq!(&b[263..265], b"00");
    assert_eq!(b[154], 0);
    assert_eq!(b[155], b' ');
}

#[test]
fn blocks_split_and_pad() {
    let data: Vec<u8> = (0..1100u32).map(|i| (i % 256) as u8).collect();
    let whole = to_blocks(&data);
    assert_eq!(whole.len(), 2);
    assert_eq!(&whole[1][..], &data[512..1024]);
    let padded = file_to_blocks(&data);
    assert_eq!(padded.len(), 3);
    assert_eq!(&padded[2][..76], &data[1024..]);
    assert!(padded[2][76..].iter().all(|&b| b == 0));
    assert!(file_to_blocks(&Vec::new()).is_empty());
    assert_eq!(blocks_to_bytes(&whole), data[..1024].to_vec());
}

#[test]
fn duplicate_names_keep_one_entry() {
    let blocks = archive_of(&vec![entry("same", b"first"), entry("same", b"second")]);
    assert_eq!(get_file_names(&blocks).unwrap(), vec!["same", "same"]);
    let files = extract_files(&blocks).unwrap();
    assert_eq!(files, vec![("same".to_string(), b"second".to_vec())]);
}

#[test]
fn tar_extension_is_required() {
    assert!(has_tar_extension("archive.tar"));
    assert!(has_tar_extension(".tar"));
    assert!(!has_tar_extension("archive.tgz"));
    assert!(!has_tar_extension("tar"));
    assert!(!has_tar_extension("archive.tar.gz"));
}

fn args(list: bool, extract: bool, create: bool, name: Option<&str>, entries: Option<Vec<&str>>) -> Args {
    Args {
        list,
        extract,
        archive_name: name.map(|s| s.to_string()),
        create,
        entries: entries.map(|v| v.into_iter().map(|s| s.to_string()).collect()),
    }
}

#[test]
fn command_planning() {
    assert_eq!(plan_command(&args(false, false, false, None, None)).err(), Some(CommandError::NoMode));
    assert_eq!(plan_command(&args(false, false, true, Some("o.tar"), None)).err(), Some(CommandError::NoEntries));
    assert_eq!(plan_command(&args(false, false, true, None, Some(vec!["a"]))).err(), Some(CommandError::NoArchiveName));
    assert_eq!(plan_command(&args(true, false, false, Some("x.zip"), None)).err(), Some(CommandError::InvalidExtension));
    match plan_command(&args(true, false, false, None, None)) {
        Ok(Command::List(None)) => {}
        _ => panic!("expected a listing of standard input"),
    }
    match plan_command(&args(false, true, false, Some("x.tar"), None)) {
        Ok(Command::Extract(Some(p))) => assert_eq!(p, "x.tar"),
        _ => panic!("expected an extraction"),
    }
    match plan_command(&args(false, false, true, Some("o.tar"), Some(vec!["a", "b"]))) {
        Ok(Command::Create(e, a)) => {
            assert_eq!(e, vec!["a", "b"]);
            assert_eq!(a, "o.tar");
        }
        _ => panic!("expected a creation"),
    }
    assert_eq!(CommandError::NoMode.message(), "No mode specified");
    assert_eq!(CommandError::NoEntries.message(), "No file or directory specified");
    assert_eq!(CommandError::NoArchiveName.message(), "No archive name specified");
    assert_eq!(CommandError::InvalidExtension.message(), "Invalid file extension, expected .tar");
}
