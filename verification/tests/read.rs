use librarc::archive::Archive;
use librarc::bytes::Endian;
use librarc::error::ArchiveError;
use librarc::nodes::file::FileAttr;

const DIRS: usize = 0x40;
const FILES: usize = 0x60;
const PAYLOAD: usize = 0x100;

/// Stage { Sub { a.bin }, ".", ".." }, big-endian unless said otherwise:
/// directories at 0x40, entries at 0x60, names at 0xE0, payload at 0x100.
fn stage_bytes(endian: Endian) -> Vec<u8> {
    let mut archive = Archive::create("Stage", true);
    let sub = archive.create_folder("Sub", Some(0));
    let file = archive.create_file("a.bin", FileAttr(0x11), Some(sub));
    archive.set_data(file, vec![1, 2, 3, 4]);
    archive.sort().unwrap();
    archive.to_bytes(endian).unwrap()
}

fn put_u32(bytes: &mut [u8], at: usize, value: u32) {
    bytes[at..at + 4].copy_from_slice(&value.to_be_bytes());
}

fn read(bytes: &[u8]) -> Result<Archive, ArchiveError> {
    let mut archive = Archive::new();
    archive.read(bytes).map(|_| archive)
}

#[test]
fn the_sample_lies_where_the_tests_expect_it() {
    let bytes = stage_bytes(Endian::Big);
    assert_eq!(bytes.len(), PAYLOAD + 32);
    assert_eq!(&bytes[DIRS..DIRS + 4], b"ROOT");
    assert_eq!(&bytes[DIRS + 16..DIRS + 20], b"SUB ");
    assert_eq!(&bytes[0xE0..0xE0 + 21], b".\0..\0Stage\0Sub\0a.bin\0");
    assert_eq!(&bytes[PAYLOAD..PAYLOAD + 4], &[1, 2, 3, 4]);
    assert!(read(&bytes).is_ok());
}

#[test]
fn entry_for_a_directory_that_does_not_exist_is_corrupt() {
    let mut bytes = stage_bytes(Endian::Big);
    put_u32(&mut bytes, FILES + 8, 2);
    assert_eq!(read(&bytes).err(), Some(ArchiveError::CorruptArchive));
    put_u32(&mut bytes, FILES + 8, 0xFFFF_FFFE);
    assert_eq!(read(&bytes).err(), Some(ArchiveError::CorruptArchive));
}

#[test]
fn entry_with_the_sentinel_names_no_directory() {
    let mut bytes = stage_bytes(Endian::Big);
    put_u32(&mut bytes, FILES + 8, 0xFFFF_FFFF);
    let archive = read(&bytes).unwrap();
    let link = archive.node(0);
    assert_eq!(link.name, "Sub");
    assert!(link.is_dir());
    assert_eq!(link.folder, None);
    assert_eq!(archive.folder(1).file, None);
}

#[test]
fn failed_read_leaves_the_archive_as_it_was() {
    let mut bytes = stage_bytes(Endian::Big);
    put_u32(&mut bytes, FILES + 8, 2);
    let mut archive = Archive::create("kept", false);
    assert_eq!(archive.read(&bytes), Err(ArchiveError::CorruptArchive));
    assert_eq!(archive.folder_count(), 1);
    assert_eq!(archive.folder(0).name, "kept");
}

#[test]
fn read_replaces_what_the_archive_held() {
    let mut archive = Archive::create("old", false);
    archive.create_folder("gone", Some(0));
    archive.read(&stage_bytes(Endian::Little)).unwrap();
    assert_eq!(archive.folder_count(), 2);
    assert_eq!(archive.folder(0).name, "Stage");
    assert_eq!(archive.node_count(), 6);
    assert_eq!(archive.file_count(), 6);
    assert!(archive.sync());
}

#[test]
fn name_that_is_not_in_the_string_table_is_a_lookup_failure() {
    let mut bytes = stage_bytes(Endian::Big);
    put_u32(&mut bytes, DIRS + 16 + 4, 1);
    assert_eq!(read(&bytes).err(), Some(ArchiveError::StringTableLookupFailure));

    let mut bytes = stage_bytes(Endian::Big);
    // the name offset of the entry a.bin: the low 24 bits of the packed field
    put_u32(&mut bytes, FILES + 3 * 20 + 4, 0x1100_0010);
    assert_eq!(read(&bytes).err(), Some(ArchiveError::StringTableLookupFailure));
}

#[test]
fn lookup_failure_comes_before_the_corrupt_entry_behind_it() {
    let mut bytes = stage_bytes(Endian::Big);
    put_u32(&mut bytes, FILES + 3 * 20 + 8, 0xFFFF_0000);
    put_u32(&mut bytes, FILES + 4, 0x0200_0001);
    assert_eq!(read(&bytes).err(), Some(ArchiveError::StringTableLookupFailure));
}

#[test]
fn table_outside_the_data_is_a_malformed_header() {
    let sample = stage_bytes(Endian::Big);
    for field in [0x20 + 4, 0x20 + 12, 0x20 + 16, 0x20 + 20] {
        let mut bytes = sample.clone();
        put_u32(&mut bytes, field, 0x1000);
        assert_eq!(read(&bytes).err(), Some(ArchiveError::MalformedHeader));
    }
    let mut bytes = sample.clone();
    // more directories than the data hold
    put_u32(&mut bytes, 0x20, 0x1000);
    assert_eq!(read(&bytes).err(), Some(ArchiveError::MalformedHeader));
    let mut bytes = sample.clone();
    put_u32(&mut bytes, 8, 0x1000);
    assert_eq!(read(&bytes).err(), Some(ArchiveError::MalformedHeader));
    assert_eq!(read(&sample[..0xE0 + 31]).err(), Some(ArchiveError::MalformedHeader));
}

#[test]
fn data_that_end_inside_the_header_are_an_io_failure() {
    let bytes = stage_bytes(Endian::Big);
    assert_eq!(read(&bytes[..31]).err(), Some(ArchiveError::IoFailure));
    assert_eq!(read(&[]).err(), Some(ArchiveError::IoFailure));
}

#[test]
fn children_outside_the_file_table_are_corrupt() {
    let mut bytes = stage_bytes(Endian::Big);
    put_u32(&mut bytes, DIRS + 16 + 12, 4);
    assert_eq!(read(&bytes).err(), Some(ArchiveError::CorruptArchive));
    put_u32(&mut bytes, DIRS + 16 + 12, 3);
    assert!(read(&bytes).is_ok());
}

#[test]
fn payload_outside_the_data_is_corrupt() {
    let mut bytes = stage_bytes(Endian::Big);
    put_u32(&mut bytes, FILES + 3 * 20 + 12, 33);
    assert_eq!(read(&bytes).err(), Some(ArchiveError::CorruptArchive));
    put_u32(&mut bytes, FILES + 3 * 20 + 12, 32);
    assert_eq!(read(&bytes).unwrap().node(3).data.len(), 32);
    put_u32(&mut bytes, FILES + 3 * 20 + 8, 0xFFFF_FFFF);
    assert_eq!(read(&bytes).err(), Some(ArchiveError::CorruptArchive));
}

#[test]
fn archive_without_the_last_payload_is_corrupt() {
    let bytes = stage_bytes(Endian::Big);
    assert_eq!(read(&bytes[..PAYLOAD + 3]).err(), Some(ArchiveError::CorruptArchive));
    assert_eq!(read(&bytes[..PAYLOAD + 4]).unwrap().node(3).data, vec![1, 2, 3, 4]);
}

#[test]
fn unknown_magic_is_read_in_the_byte_order_of_the_machine() {
    let native = if u16::from_ne_bytes([1, 0]) == 1 { Endian::Little } else { Endian::Big };
    let other = if native == Endian::Little { Endian::Big } else { Endian::Little };
    let mut bytes = stage_bytes(native);
    bytes[0..4].copy_from_slice(b"ABCD");
    let archive = read(&bytes).unwrap();
    assert_eq!(archive.folder(1).name, "Sub");
    assert_eq!(archive.node(3).data, vec![1, 2, 3, 4]);

    let mut with = Archive::new();
    assert!(with.read_with(&bytes, native).is_ok());
    assert!(with.read_with(&bytes, other).is_err());
    let mut swapped = stage_bytes(other);
    swapped[0..4].copy_from_slice(b"ABCD");
    assert!(read(&swapped).is_err());
}

#[test]
fn self_file_needs_the_hash_of_the_directory() {
    let mut bytes = stage_bytes(Endian::Big);
    let archive = read(&bytes).unwrap();
    assert_eq!(archive.folder(1).file, Some(0));
    assert_eq!(archive.folder(0).file, None);
    assert_eq!(archive.node(1).folder, Some(0));
    // another hash in the record of the directory Sub
    bytes[DIRS + 16 + 8] ^= 0xFF;
    let archive = read(&bytes).unwrap();
    assert_eq!(archive.folder(1).file, None);
    assert_eq!(archive.node(0).folder, Some(1));
}

#[test]
fn read_table_reads_the_string_table_of_the_headers() {
    let bytes = stage_bytes(Endian::Big);
    let archive = read(&bytes).unwrap();
    let table = archive.read_table(&bytes).unwrap();
    assert_eq!(table.len(), 5);
    assert_eq!(table.lookup(11), Ok("Sub".to_string()));
    assert_eq!(archive.read_table(&bytes[..0xF0]).err(), Some(ArchiveError::MalformedHeader));
}

#[test]
fn link_back_to_the_root_is_no_tree() {
    let mut bytes = stage_bytes(Endian::Big);
    // a.bin becomes a directory entry for the root
    put_u32(&mut bytes, FILES + 3 * 20 + 4, 0x0200_000F);
    put_u32(&mut bytes, FILES + 3 * 20 + 8, 0);
    let mut archive = read(&bytes).unwrap();
    assert_eq!(archive.sort(), Err(ArchiveError::InvalidTreeShape));
    assert_eq!(archive.gen_table().err(), Some(ArchiveError::InvalidTreeShape));
    assert_eq!(archive.to_bytes(Endian::Big).err(), Some(ArchiveError::InvalidTreeShape));
    assert_eq!(archive.unpack_plan().err(), Some(ArchiveError::InvalidTreeShape));
    assert_eq!(archive.file_count(), 6);
}

#[test]
fn link_that_names_no_directory_is_no_tree() {
    let mut bytes = stage_bytes(Endian::Big);
    put_u32(&mut bytes, FILES + 8, 0xFFFF_FFFF);
    let mut archive = read(&bytes).unwrap();
    assert_eq!(archive.sort(), Err(ArchiveError::InvalidTreeShape));
}

#[test]
fn entry_with_two_parents_is_no_tree() {
    let mut bytes = stage_bytes(Endian::Big);
    // the children of Sub overlap those of the root
    put_u32(&mut bytes, DIRS + 16 + 12, 2);
    let mut archive = read(&bytes).unwrap();
    assert_eq!(archive.node(2).parent, Some(1));
    assert_eq!(archive.sort(), Err(ArchiveError::InvalidTreeShape));
}

#[test]
fn directory_with_two_links_is_no_tree() {
    let mut bytes = stage_bytes(Endian::Big);
    // a.bin becomes a second entry for Sub, inside Sub
    put_u32(&mut bytes, FILES + 3 * 20 + 4, 0x0200_000F);
    put_u32(&mut bytes, FILES + 3 * 20 + 8, 1);
    let mut archive = read(&bytes).unwrap();
    assert_eq!(archive.sort(), Err(ArchiveError::InvalidTreeShape));
}

#[test]
fn too_many_entries_cannot_be_written() {
    let mut archive = Archive::create("root", true);
    for _ in 0..0xFFFF - 2 {
        archive.create_file("f", FileAttr(0x11), Some(0));
    }
    archive.sort().unwrap();
    assert!(archive.to_bytes(Endian::Big).is_ok());
    archive.create_file("g", FileAttr(0x11), Some(0));
    assert_eq!(archive.to_bytes(Endian::Big).err(), Some(ArchiveError::TooLarge));
    let mut out = vec![1, 2, 3];
    assert_eq!(archive.write(&mut out, Endian::Big), Err(ArchiveError::TooLarge));
    assert_eq!(out, vec![1, 2, 3]);
}
