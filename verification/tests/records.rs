use librarc::bytes::{pad_to_32, push_bytes, push_u16, push_u32, push_zeros, read_u16, read_u32, Endian};
use librarc::enums::JKRPreloadType;
use librarc::error::ArchiveError;
use librarc::header::{detect_endian, read_headers, read_headers_with, DataHeader, Header, Magic};
use librarc::nodes::directory::Directory;
use librarc::nodes::file::{dot_name, read_node, File, FileAttr};

#[test]
fn integers_are_written_in_either_byte_order() {
    let mut out = Vec::new();
    push_u16(&mut out, 0x1234, Endian::Big);
    push_u16(&mut out, 0x1234, Endian::Little);
    push_u32(&mut out, 0x89ABCDEF, Endian::Big);
    push_u32(&mut out, 0x89ABCDEF, Endian::Little);
    assert_eq!(out, vec![0x12, 0x34, 0x34, 0x12, 0x89, 0xAB, 0xCD, 0xEF, 0xEF, 0xCD, 0xAB, 0x89]);
    assert_eq!(read_u16(&out, 0, Endian::Big), 0x1234);
    assert_eq!(read_u16(&out, 2, Endian::Little), 0x1234);
    assert_eq!(read_u32(&out, 4, Endian::Big), 0x89ABCDEF);
    assert_eq!(read_u32(&out, 8, Endian::Little), 0x89ABCDEF);
    assert_eq!(read_u16(&out, 0, Endian::Little), 0x3412);
}

#[test]
fn padding_goes_up_to_the_next_multiple_of_32() {
    let mut out = vec![1u8; 33];
    pad_to_32(&mut out);
    assert_eq!(out.len(), 64);
    assert!(out[33..].iter().all(|b| *b == 0));
    pad_to_32(&mut out);
    assert_eq!(out.len(), 64);
    let mut empty = Vec::new();
    pad_to_32(&mut empty);
    assert!(empty.is_empty());
    push_zeros(&mut empty, 3);
    push_bytes(&mut empty, &[7, 8]);
    assert_eq!(empty, vec![0, 0, 0, 7, 8]);
}

#[test]
fn magic_stands_for_a_byte_order() {
    assert_eq!(Magic::BIG.to_endian(), Endian::Big);
    assert_eq!(Magic::LITTLE.to_endian(), Endian::Little);
    assert_eq!(Magic::from_endian(Endian::Big), Magic::BIG);
    assert_eq!(Magic::from_endian(Endian::Little), Magic::LITTLE);
    let mut out = Vec::new();
    Magic::BIG.write(&mut out);
    Magic::LITTLE.write(&mut out);
    assert_eq!(out, b"RARCCRAR");
}

#[test]
fn unknown_magic_falls_back_to_the_given_byte_order() {
    assert_eq!(detect_endian(b"RARC....", Endian::Little), Endian::Big);
    assert_eq!(detect_endian(b"CRAR....", Endian::Big), Endian::Little);
    assert_eq!(detect_endian(b"ABCD....", Endian::Big), Endian::Big);
    assert_eq!(detect_endian(b"ABCD....", Endian::Little), Endian::Little);
    assert_eq!(detect_endian(b"RA", Endian::Little), Endian::Little);
}

fn sample_headers() -> (Header, DataHeader) {
    (
        Header {
            size: 0x120,
            data_header_off: 0x20,
            file_data_off: 0x100,
            file_data_len: 0x20,
            mram_size: 0x20,
            aram_size: 0,
            dvd_size: 0,
        },
        DataHeader {
            dir_node_count: 2,
            dir_node_off: 0x20,
            file_node_count: 6,
            file_node_off: 0x40,
            string_tbl_size: 0x20,
            string_tbl_off: 0xC0,
            next_idx: 6,
            sync: true,
        },
    )
}

#[test]
fn headers_are_read_as_they_were_written() {
    for endian in [Endian::Big, Endian::Little] {
        let (header, data_header) = sample_headers();
        let mut out = Vec::new();
        Magic::from_endian(endian).write(&mut out);
        header.write(&mut out, endian);
        data_header.write(&mut out, endian);
        assert_eq!(out.len(), 64);
        assert_eq!(&out[59..64], &[0, 0, 0, 0, 0]);
        assert_eq!(out[58], 1);
        assert_eq!(read_headers(&out), Ok((endian, header, data_header)));
    }
}

#[test]
fn header_offsets_count_from_the_data_header() {
    let (header, data_header) = sample_headers();
    assert_eq!(header.data_offset(), 0x120);
    assert_eq!(data_header.dir_offset(&header), 0x40);
    assert_eq!(data_header.file_offset(&header), 0x60);
    assert_eq!(data_header.string_offset(&header), 0xE0);
    let far = Header { data_header_off: u32::MAX, file_data_off: u32::MAX, ..header };
    assert_eq!(far.data_offset(), 2 * (u32::MAX as u64));
}

#[test]
fn short_data_is_an_io_failure() {
    assert_eq!(read_headers(b"RARC"), Err(ArchiveError::IoFailure));
    assert_eq!(read_headers(&[0u8; 31]), Err(ArchiveError::IoFailure));
    assert_eq!(read_headers(&[]), Err(ArchiveError::IoFailure));
}

#[test]
fn data_header_outside_the_data_is_a_malformed_header() {
    let (header, data_header) = sample_headers();
    let mut out = Vec::new();
    Magic::BIG.write(&mut out);
    header.write(&mut out, Endian::Big);
    data_header.write(&mut out, Endian::Big);
    // the last field of the data header ends at byte 59
    assert!(read_headers(&out[..59]).is_ok());
    assert_eq!(read_headers(&out[..58]), Err(ArchiveError::MalformedHeader));
    assert_eq!(read_headers(&out[..32]), Err(ArchiveError::MalformedHeader));
}

#[test]
fn headers_with_unknown_magic_are_read_in_the_given_byte_order() {
    let (header, data_header) = sample_headers();
    let mut out = b"ABCD".to_vec();
    header.write(&mut out, Endian::Little);
    data_header.write(&mut out, Endian::Little);
    assert_eq!(read_headers_with(&out, Endian::Little), Ok((Endian::Little, header, data_header)));
    let other = read_headers_with(&out, Endian::Big);
    assert_ne!(other, Ok((Endian::Big, header, data_header)));
}

#[test]
fn file_record_packs_attributes_and_name_offset() {
    let mut file = File::create("a.bin", FileAttr(0x11), None, Some(1));
    file.node.id = 3;
    file.node.data = 0x40;
    file.node.data_size = 4;
    file.name_off = 0x0F;
    let mut out = Vec::new();
    assert_eq!(file.write(&mut out, Endian::Big), Ok(()));
    let hash = librarc::hash::calchash("a.bin");
    let mut expected = vec![0x00, 0x03, (hash >> 8) as u8, hash as u8];
    expected.extend_from_slice(&[0x11, 0x00, 0x00, 0x0F]);
    expected.extend_from_slice(&[0, 0, 0, 0x40]);
    expected.extend_from_slice(&[0, 0, 0, 4]);
    assert_eq!(out, expected);

    let mut back = File::create("", FileAttr(0), None, None);
    assert_eq!(back.read(&out, Endian::Big), Ok(()));
    assert_eq!(back.node.id, 3);
    assert_eq!(back.node.hash, hash);
    assert_eq!(back.node.attr_and_off, 0x1100_000F);
    assert_eq!(back.attr, FileAttr(0x11));
    assert_eq!(back.name_off, 0x0F);
    assert_eq!(back.node.data, 0x40);
    assert_eq!(back.node.data_size, 4);
    assert_eq!(read_node(&out, 0, Endian::Big), back.node);
}

#[test]
fn directory_entry_is_written_with_the_fixed_size() {
    let mut link = File::create("Sub", FileAttr(FileAttr::FOLDER), Some(1), Some(0));
    link.node.data = 1;
    link.node.data_size = 999;
    let mut out = Vec::new();
    link.write(&mut out, Endian::Little).unwrap();
    assert_eq!(&out[12..16], &[0x10, 0, 0, 0]);
}

#[test]
fn file_record_fails_on_short_data_and_on_a_far_name() {
    let mut file = File::create("x", FileAttr(FileAttr::FILE), None, None);
    assert_eq!(file.read(&[0u8; 15], Endian::Big), Err(ArchiveError::IoFailure));
    file.name_off = 0x0100_0000;
    let mut out = vec![9u8];
    assert_eq!(file.write(&mut out, Endian::Big), Err(ArchiveError::TooLarge));
    assert_eq!(out, vec![9u8]);
    file.name_off = 0x00FF_FFFF;
    assert_eq!(file.write(&mut out, Endian::Big), Ok(()));
    assert_eq!(&out[5..9], &[0x01, 0xFF, 0xFF, 0xFF]);
}

#[test]
fn entry_kinds_follow_the_attributes_and_the_name() {
    let file = File::create("a", FileAttr(FileAttr::FILE), None, None);
    assert!(file.is_file() && !file.is_dir() && !file.is_shortcut());
    let dot = File::create(".", FileAttr(FileAttr::FOLDER), Some(0), Some(0));
    assert!(dot.is_dir() && dot.is_shortcut());
    let dotdot = File::create("..", FileAttr(FileAttr::FOLDER), None, Some(0));
    assert!(dotdot.is_shortcut());
    let plain_dot = File::create(".", FileAttr(FileAttr::FILE), None, None);
    assert!(!plain_dot.is_shortcut());
    let link = File::create("...", FileAttr(FileAttr::FOLDER), Some(1), Some(0));
    assert!(link.is_dir() && !link.is_shortcut());
    assert!(dot_name(b".") && dot_name(b"..") && !dot_name(b"") && !dot_name(b".a") && !dot_name(b"..."));
}

#[test]
fn attributes_contain_their_bits() {
    let attr = FileAttr(FileAttr::FILE_AND_COMPRESSION);
    assert!(attr.contains(FileAttr::FILE));
    assert!(attr.contains(FileAttr::COMPRESSED));
    assert!(attr.contains(FileAttr::USE_SZS));
    assert!(!attr.contains(FileAttr::FOLDER));
    assert!(attr.contains(FileAttr::FILE | FileAttr::COMPRESSED));
    assert!(!attr.contains(FileAttr::FILE | FileAttr::FOLDER));
    assert_eq!(attr.bits(), 0x85);
}

#[test]
fn preload_type_is_the_first_target_named() {
    assert_eq!(FileAttr(0x01).preload_type(), JKRPreloadType::NONE);
    assert_eq!(FileAttr(0x11).preload_type(), JKRPreloadType::MRAM);
    assert_eq!(FileAttr(0x21).preload_type(), JKRPreloadType::ARAM);
    assert_eq!(FileAttr(0x41).preload_type(), JKRPreloadType::DVD);
    assert_eq!(FileAttr(FileAttr::FILE_AND_PRELOAD).preload_type(), JKRPreloadType::MRAM);
    assert_eq!(FileAttr(0x60).preload_type(), JKRPreloadType::ARAM);
    let file = File::create("a", FileAttr(0x41), None, None);
    assert_eq!(file.preload_type(), JKRPreloadType::DVD);
}

#[test]
fn short_name_is_upper_case_and_padded() {
    assert_eq!(Directory::create("Stage", true).short_name(), *b"ROOT");
    assert_eq!(Directory::create("Stage", false).short_name(), *b"STAG");
    assert_eq!(Directory::create("ab", false).short_name(), *b"AB  ");
    assert_eq!(Directory::create("", false).short_name(), *b"    ");
    assert_eq!(Directory::create("a1_z", false).short_name(), *b"A1_Z");
    assert_eq!(Directory::create("é", false).short_name(), [0xC3, 0xA9, b' ', b' ']);
    assert_eq!(Directory::create("Sub", false).node.short_name, *b"SUB ");
}

#[test]
fn directory_record_holds_label_offset_hash_count_and_range() {
    let mut dir = Directory::create("Sub", false);
    dir.node.name_off = 11;
    dir.node.file_off = 3;
    dir.children = vec![3, 4, 5];
    let mut out = Vec::new();
    assert_eq!(dir.write(&mut out, Endian::Big), Ok(()));
    let hash = librarc::hash::calchash("Sub");
    let mut expected = b"SUB ".to_vec();
    expected.extend_from_slice(&[0, 0, 0, 11, (hash >> 8) as u8, hash as u8, 0, 3, 0, 0, 0, 3]);
    assert_eq!(out, expected);

    let mut back = Directory::create("", false);
    assert_eq!(back.read(&out, Endian::Big), Ok(()));
    assert_eq!(back.node.short_name, *b"SUB ");
    assert_eq!(back.node.name_off, 11);
    assert_eq!(back.node.hash, hash);
    assert_eq!(back.node.file_count, 3);
    assert_eq!(back.node.file_off, 3);
    assert_eq!(back.read(&out[..15], Endian::Big), Err(ArchiveError::IoFailure));
}

#[test]
fn directory_with_too_many_children_is_not_written() {
    let mut dir = Directory::create("big", false);
    dir.children = vec![0; 0x10000];
    let mut out = Vec::new();
    assert_eq!(dir.write(&mut out, Endian::Big), Err(ArchiveError::TooLarge));
    assert!(out.is_empty());
    dir.children.pop();
    assert_eq!(dir.write(&mut out, Endian::Big), Ok(()));
    assert_eq!(&out[10..12], &[0xFF, 0xFF]);
}
