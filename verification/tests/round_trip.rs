use librarc::archive::Archive;
use librarc::bytes::Endian;
use librarc::error::ArchiveError;
use librarc::nodes::file::FileAttr;

fn stage_archive() -> Archive {
    let mut archive = Archive::create("Stage", true);
    let sub = archive.create_folder("Sub", Some(0));
    let file = archive.create_file(
        "a.bin",
        FileAttr(FileAttr::FILE | FileAttr::LOAD_TO_MRAM),
        Some(sub),
    );
    archive.set_data(file, vec![1, 2, 3, 4]);
    archive.sort().unwrap();
    archive
}

fn child_names(archive: &Archive, d: usize) -> Vec<String> {
    archive
        .folder(d)
        .children
        .iter()
        .map(|&c| archive.node(c).name.clone())
        .collect()
}

#[test]
fn stage_sub_file_survives_write_and_read() {
    for endian in [Endian::Big, Endian::Little] {
        let mut archive = stage_archive();
        let bytes = archive.to_bytes(endian).unwrap();
        let mut back = Archive::new();
        back.read(&bytes).unwrap();

        assert_eq!(back.folder_count(), 2);
        assert_eq!(back.folder(0).name, "Stage");
        assert!(back.folder(0).is_root);
        assert_eq!(child_names(&back, 0), vec!["Sub", ".", ".."]);

        let link = back.folder(0).children[0];
        assert!(back.node(link).is_dir());
        assert!(!back.node(link).is_shortcut());
        let sub = back.node(link).folder.unwrap();
        assert_eq!(sub, 1);
        assert_eq!(back.folder(sub).name, "Sub");
        assert_eq!(child_names(&back, sub), vec!["a.bin", ".", ".."]);

        let file = back.folder(sub).children[0];
        assert!(back.node(file).is_file());
        assert_eq!(back.node(file).data.len(), 4);
        assert_eq!(back.node(file).data, vec![1, 2, 3, 4]);
        assert_eq!(back.node(file).parent, Some(sub));
        assert_eq!(back.folder(sub).file, Some(link));
    }
}

#[test]
fn written_archive_has_the_documented_layout() {
    let mut archive = stage_archive();
    let bytes = archive.to_bytes(Endian::Big).unwrap();
    assert_eq!(&bytes[0..4], b"RARC");
    // two directories: 0x40 + 32; six entries: 120 bytes, rounded up to 128
    let header = archive.header();
    let _ = header;
    let mut back = Archive::new();
    back.read(&bytes).unwrap();
    let dh = back.data_header();
    assert_eq!(dh.dir_node_count, 2);
    assert_eq!(dh.dir_node_off, 0x20);
    assert_eq!(dh.file_node_count, 6);
    assert_eq!(dh.file_node_off, 0x40 + 32 - 0x20);
    assert_eq!(dh.string_tbl_off, 0x40 + 32 + 128 - 0x20);
    // ".", "..", "Stage", "Sub", "a.bin": 2 + 3 + 6 + 4 + 6 = 21 bytes, padded to 32
    assert_eq!(dh.string_tbl_size, 32);
    assert!(dh.sync);
    assert_eq!(dh.next_idx, 6);
    let h = back.header();
    assert_eq!(h.data_header_off, 0x20);
    assert_eq!(h.file_data_off, 0x40 + 32 + 128 + 32 - 0x20);
    assert_eq!(h.file_data_len, 32);
    assert_eq!(h.mram_size, 32);
    assert_eq!(h.aram_size, 0);
    assert_eq!(h.dvd_size, 0);
    assert_eq!(h.size as usize, bytes.len());
    assert_eq!(bytes.len(), 0x40 + 32 + 128 + 32 + 32);
}

#[test]
fn little_endian_archive_starts_with_crar() {
    let mut archive = stage_archive();
    let bytes = archive.to_bytes(Endian::Little).unwrap();
    assert_eq!(&bytes[0..4], b"CRAR");
}

fn attr(bits: u8) -> FileAttr {
    FileAttr(FileAttr::FILE | bits)
}

#[test]
fn payloads_are_grouped_by_their_target() {
    let mut archive = Archive::create("root", false);
    let dvd = archive.create_file("dvd", attr(FileAttr::LOAD_FROM_DVD), Some(0));
    let aram = archive.create_file("aram", attr(FileAttr::LOAD_TO_ARAM), Some(0));
    let mram = archive.create_file("mram", attr(FileAttr::LOAD_TO_MRAM), Some(0));
    let none = archive.create_file("none", attr(0), Some(0));
    let second = archive.create_file("mram2", attr(FileAttr::LOAD_TO_MRAM), Some(0));
    archive.set_data(dvd, vec![0xD0; 5]);
    archive.set_data(aram, vec![0xA0; 40]);
    archive.set_data(mram, vec![0x30; 32]);
    archive.set_data(none, vec![0x99; 8]);
    archive.set_data(second, vec![0x31; 1]);
    archive.sort().unwrap();
    let bytes = archive.to_bytes(Endian::Big).unwrap();

    // offsets count from the first payload: main RAM, auxiliary RAM, disc;
    // a file that names no target stands with those of the disc
    assert_eq!(archive.node(mram).node.data, 0);
    assert_eq!(archive.node(second).node.data, 32);
    assert_eq!(archive.node(aram).node.data, 64);
    assert_eq!(archive.node(dvd).node.data, 128);
    assert_eq!(archive.node(none).node.data, 160);

    let mut back = Archive::new();
    back.read(&bytes).unwrap();
    let h = back.header();
    assert_eq!((h.mram_size, h.aram_size, h.dvd_size), (64, 64, 64));
    assert_eq!(h.file_data_len, 192);
    assert_eq!(h.mram_size + h.aram_size + h.dvd_size, h.file_data_len);
    assert_eq!(h.size as usize, bytes.len());
    let start = (h.data_header_off + h.file_data_off) as usize;
    assert_eq!(&bytes[start..start + 32], &[0x30; 32]);
    assert_eq!(bytes[start + 32], 0x31);
    assert_eq!(&bytes[start + 33..start + 64], &[0; 31]);
    assert_eq!(&bytes[start + 64..start + 104], &[0xA0; 40]);
    assert_eq!(&bytes[start + 128..start + 133], &[0xD0; 5]);
    assert_eq!(&bytes[start + 133..start + 160], &[0; 27]);
    assert_eq!(&bytes[start + 160..start + 168], &[0x99; 8]);
    assert_eq!(bytes.len(), start + 192);

    let by_name = |name: &str| {
        (0..back.node_count()).map(|h| back.node(h)).find(|f| f.name == name).unwrap()
    };
    assert_eq!(by_name("dvd").data, vec![0xD0; 5]);
    assert_eq!(by_name("aram").data, vec![0xA0; 40]);
    assert_eq!(by_name("mram").data, vec![0x30; 32]);
    assert_eq!(by_name("mram2").data, vec![0x31; 1]);
    assert_eq!(by_name("none").data, vec![0x99; 8]);
    assert_eq!(by_name("none").attr, attr(0));
    assert_eq!(by_name("dvd").attr, attr(FileAttr::LOAD_FROM_DVD));
    assert!(!back.sync());
    assert_eq!(back.next_id(), 5);
}

#[test]
fn ids_survive_write_and_read() {
    let mut archive = Archive::create("root", false);
    archive.create_folder("Sub", Some(0));
    archive.create_file("a", attr(FileAttr::LOAD_TO_MRAM), Some(1));
    archive.create_file("b", attr(FileAttr::LOAD_TO_MRAM), Some(0));
    archive.sort().unwrap();
    let bytes = archive.to_bytes(Endian::Little).unwrap();
    let mut back = Archive::new();
    back.read(&bytes).unwrap();
    let ids: Vec<(String, u16)> = (0..back.file_count())
        .map(|k| back.node(back.file(k)))
        .filter(|f| f.is_file())
        .map(|f| (f.name.clone(), f.node.id))
        .collect();
    assert_eq!(ids, vec![("b".to_string(), 0), ("a".to_string(), 1)]);
}

#[test]
fn archive_that_was_read_is_written_as_it_was() {
    let mut archive = stage_archive();
    let bytes = archive.to_bytes(Endian::Big).unwrap();
    let mut back = Archive::new();
    back.read(&bytes).unwrap();
    back.sort().unwrap();
    assert_eq!(back.to_bytes(Endian::Big).unwrap(), bytes);
    let mut out = vec![7u8; 3];
    assert_eq!(back.write(&mut out, Endian::Big), Ok(()));
    assert_eq!(out, bytes);
}

#[test]
fn archive_that_was_not_sorted_is_written_without_its_entries() {
    let mut archive = Archive::create("root", true);
    archive.create_file("a", attr(FileAttr::LOAD_TO_MRAM), Some(0));
    let bytes = archive.to_bytes(Endian::Big).unwrap();
    // one directory with three children, and a file table without entries
    assert_eq!(bytes.len(), 0x40 + 32 + 32);
    assert_eq!(&bytes[0x40 + 10..0x40 + 12], &[0, 3]);
    let mut back = Archive::new();
    assert_eq!(back.read(&bytes), Err(librarc::error::ArchiveError::CorruptArchive));
}

#[test]
fn empty_archive_is_headers_and_a_string_table() {
    let mut archive = Archive::new();
    let bytes = archive.to_bytes(Endian::Big).unwrap();
    assert_eq!(bytes.len(), 0x40 + 32);
    assert_eq!(&bytes[0x40..0x46], b".\0..\0\0");
    let mut back = Archive::new();
    back.read(&bytes).unwrap();
    assert_eq!(back.folder_count(), 0);
    assert_eq!(back.header().size, 0x60);
}

#[test]
fn file_without_a_target_keeps_its_payload() {
    for bits in [0u8, FileAttr::COMPRESSED, FileAttr::COMPRESSED | FileAttr::USE_SZS] {
        for endian in [Endian::Big, Endian::Little] {
            let mut archive = Archive::create("root", true);
            let sub = archive.create_folder("Sub", Some(0));
            let plain = archive.create_file("plain", attr(bits), Some(sub));
            let other = archive.create_file("other", attr(FileAttr::LOAD_TO_ARAM), Some(0));
            archive.set_data(plain, vec![7, 8, 9]);
            archive.set_data(other, vec![1; 33]);
            archive.sort().unwrap();
            let bytes = archive.to_bytes(endian).unwrap();
            let mut back = Archive::new();
            back.read(&bytes).unwrap();
            let h = back.header();
            assert_eq!((h.mram_size, h.aram_size, h.dvd_size), (0, 64, 32));
            assert_eq!(h.file_data_len, 96);
            let read = (0..back.node_count())
                .map(|h| back.node(h))
                .find(|f| f.name == "plain")
                .unwrap();
            assert_eq!(read.data, vec![7, 8, 9]);
            assert_eq!(read.attr, attr(bits));
            assert_eq!(read.node.data, 64);
            assert_eq!(read.node.data_size, 3);
            let mut out = Vec::new();
            assert_eq!(archive.write(&mut out, endian), Ok(()));
            assert_eq!(out, bytes);
            let first = (h.data_header_off + h.file_data_off) as usize;
            let at = first + archive.node(plain).node.data as usize;
            assert_eq!(&out[at..at + 3], &[7, 8, 9]);
        }
    }
}

#[test]
fn parents_survive_write_and_read() {
    let mut archive = Archive::create("root", false);
    let sub = archive.create_folder("Sub", Some(0));
    let deep = archive.create_folder("Deep", Some(sub));
    let empty = archive.create_folder("Empty", Some(0));
    let a = archive.create_file("a", attr(0), Some(deep));
    let b = archive.create_file("b", attr(FileAttr::LOAD_TO_ARAM), Some(0));
    archive.set_data(a, vec![1, 2, 3]);
    archive.set_data(b, vec![4]);
    archive.sort().unwrap();
    let bytes = archive.to_bytes(Endian::Big).unwrap();
    let mut back = Archive::new();
    back.read(&bytes).unwrap();
    assert_eq!(back.folder_count(), 4);
    assert_eq!(back.node_count(), archive.file_count());
    for d in 0..back.folder_count() {
        assert_eq!(back.folder(d).is_root, d == 0);
        assert_eq!(back.folder(d).children.len(), archive.folder(d).children.len());
        for &c in &back.folder(d).children {
            assert_eq!(back.node(c).parent, Some(d));
        }
    }
    for j in 0..archive.file_count() {
        let written = archive.node(archive.file(j));
        let read = back.node(j);
        assert_eq!(read.parent, written.parent);
        assert_eq!(read.folder, written.folder);
        assert_eq!(read.name, written.name);
        assert_eq!(read.data, written.data);
    }
    assert_eq!(back.folder(empty).children.len(), 2);
    assert_eq!(child_names(&back, deep), vec!["a", ".", ".."]);
}

#[test]
fn entry_that_is_no_file_keeps_its_attributes() {
    let mut archive = Archive::create("root", true);
    archive.create_file("x", FileAttr(FileAttr::LOAD_TO_MRAM), Some(0));
    let file = archive.create_file("y", attr(FileAttr::LOAD_TO_MRAM), Some(0));
    archive.set_data(file, vec![5; 3]);
    archive.sort().unwrap();
    let bytes = archive.to_bytes(Endian::Little).unwrap();
    let mut back = Archive::new();
    back.read(&bytes).unwrap();
    assert_eq!(child_names(&back, 0), vec!["x", "y", ".", ".."]);
    let x = back.node(back.folder(0).children[0]);
    assert_eq!(x.attr, FileAttr(FileAttr::LOAD_TO_MRAM));
    assert!(!x.is_file() && !x.is_dir());
    assert_eq!(x.data, Vec::<u8>::new());
    assert_eq!(x.parent, Some(0));
    assert_eq!(back.node(back.folder(0).children[1]).data, vec![5; 3]);
}

#[test]
fn root_named_like_a_shortcut_is_written_and_read() {
    for (name, off) in [(".", 0u32), ("..", 2u32)] {
        let mut archive = Archive::create(name, true);
        let file = archive.create_file("a", attr(FileAttr::LOAD_TO_MRAM), Some(0));
        archive.set_data(file, vec![1, 2]);
        archive.sort().unwrap();
        let table = archive.gen_table().unwrap();
        assert_eq!(table.len(), 3);
        assert_eq!(table.lookup(off), Ok(name.to_string()));
        assert_eq!(table.lookup(5), Ok("a".to_string()));
        assert_eq!(archive.folder(0).node.name_off, off);
        let bytes = archive.to_bytes(Endian::Big).unwrap();
        let mut back = Archive::new();
        assert_eq!(back.read(&bytes), Ok(()));
        assert_eq!(back.folder(0).name, name);
        assert_eq!(back.folder(0).node.name_off, off);
        assert_eq!(child_names(&back, 0), vec!["a", ".", ".."]);
        assert_eq!(back.node(0).data, vec![1, 2]);
    }
}

#[test]
fn names_that_cannot_be_found_again_are_refused() {
    for name in ["", "a\0b", "\0"] {
        let mut archive = Archive::create("root", true);
        archive.create_file(name, attr(FileAttr::LOAD_TO_MRAM), Some(0));
        archive.sort().unwrap();
        assert_eq!(archive.names_found(), Ok(false));
        let count = archive.file_count();
        assert_eq!(archive.to_bytes(Endian::Big), Err(ArchiveError::InvalidName));
        let mut out = vec![9];
        assert_eq!(archive.write(&mut out, Endian::Little), Err(ArchiveError::InvalidName));
        assert_eq!(out, vec![9]);
        assert_eq!(archive.file_count(), count);
        assert_eq!(archive.folder(0).node.name_off, 0);

        let mut unnamed = Archive::create(name, false);
        unnamed.sort().unwrap();
        assert_eq!(unnamed.to_bytes(Endian::Big), Err(ArchiveError::InvalidName));
    }
    let mut sound = Archive::create("root", true);
    sound.create_folder("Sub", Some(0));
    assert_eq!(sound.names_found(), Ok(true));
    let mut orphan = Archive::create("root", true);
    orphan.create_file("x", FileAttr(FileAttr::FOLDER), Some(0));
    assert_eq!(orphan.names_found(), Err(ArchiveError::InvalidTreeShape));
}
