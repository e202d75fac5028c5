use mar::extract::{entry_data, is_safe_path, plan_extraction, ExtractError};
use mar::read::{get_info, read_index};
use mar::{mar_item_size, round_up, FormatError, MarFileInfo};

fn be(x: u32) -> Vec<u8> {
    x.to_be_bytes().to_vec()
}

fn index_entry(offset: u32, length: u32, flags: u32, name: &[u8]) -> Vec<u8> {
    let mut v = be(offset);
    v.extend(be(length));
    v.extend(be(flags));
    v.extend_from_slice(name);
    v.push(0);
    v
}

/// An archive with no signature: the header, then the contents, then the index.
fn build(files: &[(&str, &[u8])]) -> Vec<u8> {
    let mut out = b"MAR1".to_vec();
    out.extend(be(0));
    out.extend(be(0));
    out.extend(be(0));
    let mut index = Vec::new();
    for (name, data) in files {
        index.extend(index_entry(out.len() as u32, data.len() as u32, 0o644, name.as_bytes()));
        out.extend_from_slice(data);
    }
    let offset_to_index = out.len() as u32;
    out[4..8].copy_from_slice(&be(offset_to_index));
    out.extend(be(index.len() as u32));
    out.extend(index);
    out
}

#[test]
fn round_trip_two_files() {
    let archive = build(&[("a.txt", b"first"), ("dir/b.bin", &[0, 1, 2, 255])]);
    let items = plan_extraction(&archive).unwrap();
    assert_eq!(items.len(), 2);
    assert_eq!(items[0].name, "a.txt");
    assert_eq!(entry_data(&archive, &items[0]), b"first");
    assert_eq!(items[1].name, "dir/b.bin");
    assert_eq!(entry_data(&archive, &items[1]), &[0, 1, 2, 255]);
}

#[test]
fn extract_single_entry() {
    // Content "hello" at offset 20, the index right after it.
    let mut archive = b"MAR1".to_vec();
    archive.extend(be(25));
    archive.extend(vec![0; 12]);
    archive.extend_from_slice(b"hello");
    let entry = index_entry(20, 5, 0o644, b"a.txt");
    archive.extend(be(entry.len() as u32));
    archive.extend(entry);
    let items = plan_extraction(&archive).unwrap();
    assert_eq!(items.len(), 1);
    assert_eq!(items[0].offset, 20);
    assert_eq!(items[0].length, 5);
    assert_eq!(items[0].flags, 0o644);
    assert_eq!(items[0].name, "a.txt");
    assert_eq!(entry_data(&archive, &items[0]), b"hello");
}

#[test]
fn short_content_is_refused() {
    // The entry declares 10 bytes at offset 26, but the stream ends 3 bytes later.
    let mut archive = b"MAR1".to_vec();
    archive.extend(be(8));
    let entry = index_entry(26, 10, 0o644, b"a");
    archive.extend(be(entry.len() as u32));
    archive.extend(entry);
    assert_eq!(archive.len(), 26);
    archive.extend_from_slice(b"abc");
    assert_eq!(plan_extraction(&archive).unwrap_err(), ExtractError::ShortRead);
}

#[test]
fn bad_magic() {
    let mut archive = build(&[("a.txt", b"x")]);
    archive[3] = b'2';
    assert_eq!(get_info(&archive), Err(FormatError::BadMagic));
    assert_eq!(read_index(&archive).unwrap_err(), FormatError::BadMagic);
    assert_eq!(
        plan_extraction(&archive).unwrap_err(),
        ExtractError::Format(FormatError::BadMagic)
    );
    assert_eq!(read_index(b"XYZW").unwrap_err(), FormatError::BadMagic);
}

#[test]
fn too_short_for_magic() {
    assert_eq!(read_index(b"MA").unwrap_err(), FormatError::Truncated);
    assert_eq!(get_info(b"").unwrap_err(), FormatError::Truncated);
}

#[test]
fn index_length_too_large() {
    let mut archive = build(&[("a.txt", b"x")]);
    let at = archive.len() - index_entry(0, 0, 0, b"a.txt").len() - 4;
    archive[at..at + 4].copy_from_slice(&be(1000));
    assert_eq!(read_index(&archive).unwrap_err(), FormatError::Truncated);
}

#[test]
fn index_offset_past_end() {
    let mut archive = build(&[]);
    archive[4..8].copy_from_slice(&be(500));
    assert_eq!(read_index(&archive).unwrap_err(), FormatError::Truncated);
    assert_eq!(get_info(&archive).unwrap_err(), FormatError::Truncated);
}

#[test]
fn empty_index() {
    let archive = build(&[]);
    assert_eq!(read_index(&archive).unwrap().len(), 0);
    assert_eq!(plan_extraction(&archive).unwrap().len(), 0);
}

#[test]
fn name_without_nul() {
    let mut archive = b"MAR1".to_vec();
    archive.extend(be(8));
    let mut entry = index_entry(0, 0, 0, b"abc");
    entry.pop();
    archive.extend(be(entry.len() as u32));
    archive.extend(entry);
    assert_eq!(read_index(&archive).unwrap_err(), FormatError::Truncated);
}

#[test]
fn partial_trailing_entry() {
    let mut archive = b"MAR1".to_vec();
    archive.extend(be(8));
    let mut entry = index_entry(0, 0, 0, b"abc");
    entry.extend(vec![0; 7]);
    archive.extend(be(entry.len() as u32));
    archive.extend(entry);
    assert_eq!(read_index(&archive).unwrap_err(), FormatError::Truncated);
}

#[test]
fn name_not_utf8() {
    let mut archive = b"MAR1".to_vec();
    archive.extend(be(8));
    let entry = index_entry(0, 0, 0, &[0x61, 0xff, 0x62]);
    archive.extend(be(entry.len() as u32));
    archive.extend(entry);
    assert_eq!(read_index(&archive).unwrap_err(), FormatError::InvalidName);
}

#[test]
fn parent_component_refused() {
    for name in ["../evil", "a/../b", "a/..", "..", "a\\..\\b"] {
        let archive = build(&[("ok.txt", b"1"), (name, b"2")]);
        assert_eq!(plan_extraction(&archive).unwrap_err(), ExtractError::PathEscape);
    }
}

#[test]
fn absolute_and_empty_names_refused() {
    for name in ["/etc/passwd", "\\x", "C:x", ""] {
        let archive = build(&[(name, b"2")]);
        assert_eq!(plan_extraction(&archive).unwrap_err(), ExtractError::PathEscape);
    }
}

#[test]
fn safe_names() {
    assert!(is_safe_path("a.txt"));
    assert!(is_safe_path("a/..b/c"));
    assert!(is_safe_path("..a"));
    assert!(is_safe_path("dir/sub/file"));
    assert!(!is_safe_path("a/../b"));
    assert!(!is_safe_path(""));
}

#[test]
fn info_old_style() {
    // Content starts right after the 8-byte header: no signature block.
    let mut archive = b"MAR1".to_vec();
    archive.extend(be(16));
    archive.extend(be(0));
    archive.extend(be(0));
    archive.extend(be(8));
    assert_eq!(
        get_info(&archive).unwrap(),
        MarFileInfo {
            has_signature_block: false,
            num_signatures: 0,
            has_additional_blocks: false,
            offset_additional_blocks: 16,
            num_additional_blocks: 0,
        }
    );
}

fn signed(sig_lens: &[u32], additional: bool) -> Vec<u8> {
    let mut out = b"MAR1".to_vec();
    out.extend(be(0));
    out.extend(be(sig_lens.len() as u32));
    out.extend(be(0));
    for (i, len) in sig_lens.iter().enumerate() {
        out.extend(be(i as u32 + 1));
        out.extend(be(*len));
        out.extend(vec![0xab; *len as usize]);
    }
    if additional {
        out.extend(be(0x0102_0304));
    }
    let content = out.len() as u32;
    out.extend_from_slice(b"data");
    let offset_to_index = out.len() as u32;
    out[4..8].copy_from_slice(&be(offset_to_index));
    // The metadata scan takes the first field at the index offset as where
    // the content starts.
    out.extend(be(content));
    out
}

#[test]
fn info_skips_signatures() {
    let archive = signed(&[0, 5, 2048], false);
    let info = get_info(&archive).unwrap();
    assert!(info.has_signature_block);
    assert_eq!(info.num_signatures, 3);
    assert_eq!(info.offset_additional_blocks, 16 + 8 + 13 + 2056);
    assert!(info.has_additional_blocks);
    assert_eq!(info.num_additional_blocks, u32::from_be_bytes(*b"data"));
}

#[test]
fn info_additional_block() {
    let archive = signed(&[7], true);
    let info = get_info(&archive).unwrap();
    assert_eq!(info.offset_additional_blocks, 31);
    assert!(info.has_signature_block);
    assert!(!info.has_additional_blocks);
    assert_eq!(info.num_additional_blocks, 0);
}

#[test]
fn info_additional_block_present() {
    // The content offset equals where the signatures end.
    let mut archive = signed(&[7], true);
    let index = u32::from_be_bytes(archive[4..8].try_into().unwrap()) as usize;
    archive[index..index + 4].copy_from_slice(&be(31));
    let info = get_info(&archive).unwrap();
    assert!(info.has_additional_blocks);
    assert_eq!(info.offset_additional_blocks, 31);
    assert_eq!(info.num_additional_blocks, 0x0102_0304);
}

#[test]
fn signature_too_long() {
    let archive = signed(&[2049], false);
    assert_eq!(get_info(&archive).unwrap_err(), FormatError::Overflow);
}

#[test]
fn signature_walk_truncated() {
    let mut archive = signed(&[], false);
    archive[8..12].copy_from_slice(&be(1_000_000));
    assert_eq!(get_info(&archive).unwrap_err(), FormatError::Truncated);
}

#[test]
fn item_size_and_round_up() {
    assert_eq!(mar_item_size(5), 18);
    assert_eq!(mar_item_size(0), 13);
    assert_eq!(round_up(0, 4), 0);
    assert_eq!(round_up(5, 4), 8);
    assert_eq!(round_up(8, 4), 8);
    assert_eq!(round_up(13, 16), 16);
}
