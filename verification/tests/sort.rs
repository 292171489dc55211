use librarc::archive::Archive;
use librarc::error::ArchiveError;
use librarc::nodes::file::FileAttr;

fn names(archive: &Archive, handles: &[usize]) -> Vec<String> {
    handles.iter().map(|&h| archive.node(h).name.clone()).collect()
}

fn table(archive: &Archive) -> Vec<usize> {
    (0..archive.file_count()).map(|k| archive.file(k)).collect()
}

/// root { a.txt, Sub { b.txt, Deep { c.txt } }, d.txt }
fn nested(sync: bool) -> Archive {
    let mut archive = Archive::create("root", sync);
    archive.create_file("a.txt", FileAttr(0x11), Some(0));
    let sub = archive.create_folder("Sub", Some(0));
    archive.create_file("b.txt", FileAttr(0x11), Some(sub));
    let deep = archive.create_folder("Deep", Some(sub));
    archive.create_file("c.txt", FileAttr(0x11), Some(deep));
    archive.create_file("d.txt", FileAttr(0x11), Some(0));
    archive
}

#[test]
fn create_makes_a_root_with_its_shortcuts() {
    let archive = Archive::create("X", false);
    assert_eq!(archive.folder_count(), 1);
    assert_eq!(archive.root(), Some(0));
    assert!(archive.folder(0).is_root);
    assert_eq!(archive.folder(0).name, "X");
    assert_eq!(archive.folder(0).node.short_name, *b"ROOT");
    assert_eq!(names(&archive, &archive.folder(0).children), vec![".", ".."]);
    let dot = archive.node(archive.folder(0).children[0]);
    assert_eq!((dot.folder, dot.parent), (Some(0), Some(0)));
    assert_eq!(dot.attr, FileAttr(FileAttr::FOLDER));
    let dotdot = archive.node(archive.folder(0).children[1]);
    assert_eq!((dotdot.folder, dotdot.parent), (None, Some(0)));
    assert_eq!(archive.file_count(), 0);
    assert!(!archive.sync());
    assert_eq!(Archive::new().root(), None);
    assert_eq!(Archive::default().folder_count(), 0);
}

#[test]
fn create_folder_links_the_directory_to_its_parent() {
    let mut archive = Archive::create("root", true);
    let sub = archive.create_folder("Sub", Some(0));
    assert_eq!(sub, 1);
    assert_eq!(names(&archive, &archive.folder(0).children), vec![".", "..", "Sub"]);
    assert_eq!(names(&archive, &archive.folder(sub).children), vec![".", ".."]);
    let link = archive.folder(0).children[2];
    assert_eq!(archive.folder(sub).file, Some(link));
    assert_eq!(archive.node(link).folder, Some(sub));
    assert_eq!(archive.node(link).parent, Some(0));
    let dot = archive.node(archive.folder(sub).children[0]);
    assert_eq!((dot.folder, dot.parent), (Some(sub), Some(sub)));
    let dotdot = archive.node(archive.folder(sub).children[1]);
    assert_eq!((dotdot.folder, dotdot.parent), (Some(0), Some(sub)));
    assert_eq!(archive.folder(sub).node.short_name, *b"SUB ");

    let orphan = archive.create_folder("Lost", None);
    assert_eq!(orphan, 2);
    assert_eq!(archive.folder(0).children.len(), 3);
    let dotdot = archive.node(archive.folder(orphan).children[1]);
    assert_eq!(dotdot.folder, None);
}

#[test]
fn create_file_takes_the_next_id_where_ids_are_no_positions() {
    let mut archive = Archive::create("root", false);
    let a = archive.create_file("a", FileAttr(0x11), Some(0));
    let b = archive.create_file("b", FileAttr(0x11), Some(0));
    assert_eq!(archive.node(a).node.id, 0);
    assert_eq!(archive.node(b).node.id, 1);
    assert_eq!(archive.next_id(), 2);

    let mut synced = Archive::create("root", true);
    let a = synced.create_file("a", FileAttr(0x11), Some(0));
    assert_eq!(synced.node(a).node.id, 0);
    assert_eq!(synced.next_id(), 0);
    synced.set_next_id(7);
    synced.set_sync(false);
    let b = synced.create_file("b", FileAttr(0x11), None);
    assert_eq!(synced.node(b).node.id, 7);
    assert_eq!(synced.node(b).parent, None);
    assert_eq!(synced.next_id(), 8);
}

#[test]
fn set_data_sets_the_size() {
    let mut archive = Archive::create("root", true);
    let a = archive.create_file("a", FileAttr(0x11), Some(0));
    archive.set_data(a, vec![5; 70]);
    assert_eq!(archive.node(a).data.len(), 70);
    assert_eq!(archive.node(a).node.data_size, 70);
}

#[test]
fn sort_lists_each_directory_after_its_parent_shortcuts_last() {
    let mut archive = nested(true);
    assert_eq!(archive.sort(), Ok(()));
    assert_eq!(
        names(&archive, &table(&archive)),
        vec![
            "a.txt", "Sub", "d.txt", ".", "..", // root
            "b.txt", "Deep", ".", "..", // Sub
            "c.txt", ".", "..", // Deep
        ]
    );
    assert_eq!(names(&archive, &archive.folder(0).children), vec!["a.txt", "Sub", "d.txt", ".", ".."]);
    assert_eq!(names(&archive, &archive.folder(1).children), vec!["b.txt", "Deep", ".", ".."]);
}

#[test]
fn after_sort_the_children_of_a_directory_are_its_range_of_the_table() {
    let mut archive = nested(false);
    archive.sort().unwrap();
    let files = table(&archive);
    let mut covered = 0;
    for d in 0..archive.folder_count() {
        let dir = archive.folder(d);
        let first = dir.node.file_off as usize;
        let count = dir.node.file_count as usize;
        assert_eq!(&files[first..first + count], dir.children.as_slice());
        covered += count;
    }
    assert_eq!(covered, files.len());
    assert_eq!(archive.folder(0).node.file_off, 0);
    assert_eq!(archive.folder(1).node.file_off, 5);
    assert_eq!(archive.folder(2).node.file_off, 9);
    assert_eq!(archive.folder(2).node.file_count, 3);
}

#[test]
fn sort_gives_positions_as_ids_where_ids_are_positions() {
    let mut archive = nested(true);
    archive.sort().unwrap();
    for (position, &handle) in table(&archive).iter().enumerate() {
        if archive.node(handle).is_file() {
            assert_eq!(archive.node(handle).node.id as usize, position);
        }
    }
    assert_eq!(archive.next_id(), 12);
    let ids: Vec<u16> = [0usize, 2, 5, 9].iter().map(|&p| archive.node(archive.file(p)).node.id).collect();
    assert_eq!(ids, vec![0, 2, 5, 9]);
}

#[test]
fn sort_counts_the_files_where_ids_are_no_positions() {
    let mut archive = nested(false);
    archive.sort().unwrap();
    let ids: Vec<u16> = table(&archive)
        .iter()
        .filter(|&&h| archive.node(h).is_file())
        .map(|&h| archive.node(h).node.id)
        .collect();
    assert_eq!(ids, vec![0, 1, 2, 3]);
    assert_eq!(names(&archive, &[archive.file(9)]), vec!["c.txt"]);
    assert_eq!(archive.node(archive.file(9)).node.id, 3);
    assert_eq!(archive.next_id(), 4);
}

#[test]
fn sort_writes_the_position_of_the_directory_into_its_entries() {
    let mut archive = nested(true);
    archive.sort().unwrap();
    let files = table(&archive);
    // root: Sub at 1, "." at 3, ".." at 4
    assert_eq!(archive.node(files[1]).node.data, 1);
    assert_eq!(archive.node(files[3]).node.data, 0);
    assert_eq!(archive.node(files[4]).node.data, 0xFFFF_FFFF);
    // Sub: Deep at 6, "." at 7, ".." at 8
    assert_eq!(archive.node(files[6]).node.data, 2);
    assert_eq!(archive.node(files[7]).node.data, 1);
    assert_eq!(archive.node(files[8]).node.data, 0);
}

#[test]
fn sort_leaves_a_directory_without_parent_out() {
    let mut archive = Archive::create("root", true);
    let orphan = archive.create_folder("Lost", None);
    archive.create_file("x", FileAttr(0x11), Some(orphan));
    archive.sort().unwrap();
    assert_eq!(names(&archive, &table(&archive)), vec![".", ".."]);
    assert_eq!(archive.folder(orphan).node.file_count, 0);
}

#[test]
fn sort_of_an_empty_archive_gives_an_empty_table() {
    let mut archive = Archive::new();
    assert_eq!(archive.sort(), Ok(()));
    assert_eq!(archive.file_count(), 0);
    assert_eq!(archive.next_id(), 0);
}

#[test]
fn sort_twice_changes_nothing() {
    let mut archive = nested(true);
    archive.sort().unwrap();
    let first = table(&archive);
    archive.sort().unwrap();
    assert_eq!(table(&archive), first);
}

#[test]
fn sort_refuses_more_entries_than_16_bits_count() {
    let mut archive = Archive::create("root", true);
    for _ in 0..0xFFFF - 2 {
        archive.create_file("f", FileAttr(0x11), Some(0));
    }
    assert_eq!(archive.sort(), Ok(()));
    assert_eq!(archive.file_count(), 0xFFFF);
    archive.create_file("f", FileAttr(0x11), Some(0));
    assert_eq!(archive.sort(), Err(ArchiveError::TooLarge));
    assert_eq!(archive.file_count(), 0xFFFF);
}

#[test]
fn sort_takes_a_long_table_where_ids_count_files() {
    let mut archive = Archive::create("root", false);
    let first = archive.create_file("a", FileAttr(0x11), Some(0));
    for _ in 0..21846 {
        archive.create_folder("d", Some(0));
    }
    let last = archive.create_file("b", FileAttr(0x11), Some(21846));
    assert_eq!(archive.sort(), Ok(()));
    assert_eq!(archive.file_count(), 2 + 3 * 21846 + 2);
    assert!(archive.file_count() > 0xFFFF);
    assert_eq!(archive.next_id(), 2);
    assert_eq!(archive.node(first).node.id, 0);
    assert_eq!(archive.node(last).node.id, 1);
    assert_eq!(archive.folder(0).node.file_count, 21846 + 3);
    assert_eq!(archive.folder(0).node.file_off, 0);
    assert_eq!(archive.folder(21846).node.file_count, 3);
    assert_eq!(archive.folder(21846).node.file_off, 21849 + 21845 * 2);
    assert_eq!(archive.file(archive.folder(21846).node.file_off as usize), last);
}

#[test]
fn sort_refuses_a_long_table_where_ids_are_positions() {
    let mut archive = Archive::create("root", true);
    for _ in 0..21846 {
        archive.create_folder("d", Some(0));
    }
    let before = archive.file_count();
    assert_eq!(archive.sort(), Err(ArchiveError::TooLarge));
    assert_eq!(archive.file_count(), before);
}

#[test]
fn sort_refuses_a_directory_with_more_children_than_16_bits_count() {
    let mut archive = Archive::create("root", false);
    for _ in 0..0xFFFF - 2 {
        archive.create_file("f", FileAttr(0x11), Some(0));
    }
    assert_eq!(archive.sort(), Ok(()));
    assert_eq!(archive.folder(0).node.file_count, 0xFFFF);
    assert_eq!(archive.next_id(), 0xFFFF - 2);
    archive.create_file("f", FileAttr(0x11), Some(0));
    assert_eq!(archive.folder(0).children.len(), 0x10000);
    assert_eq!(archive.sort(), Err(ArchiveError::TooLarge));
}

#[test]
fn gen_table_reserves_the_first_three_offsets() {
    let mut archive = Archive::create("X", true);
    let table = archive.gen_table().unwrap();
    assert_eq!(table.len(), 3);
    assert_eq!(table.lookup(0), Ok(".".to_string()));
    assert_eq!(table.lookup(2), Ok("..".to_string()));
    assert_eq!(table.lookup(5), Ok("X".to_string()));
    assert_eq!(archive.folder(0).node.name_off, 5);
    assert_eq!(archive.node(archive.folder(0).children[0]).name_off, 0);
    assert_eq!(archive.node(archive.folder(0).children[1]).name_off, 2);
}

#[test]
fn gen_table_adds_the_names_in_the_order_of_the_walk() {
    let mut archive = nested(true);
    archive.sort().unwrap();
    let table = archive.gen_table().unwrap();
    let texts: Vec<String> = (0..table.len()).map(|i| table.text_at(i).clone()).collect();
    assert_eq!(texts, vec![".", "..", "root", "a.txt", "Sub", "b.txt", "Deep", "c.txt", "d.txt"]);
    let offsets: Vec<u32> = (0..table.len()).map(|i| table.offset_at(i)).collect();
    assert_eq!(offsets, vec![0, 2, 5, 10, 16, 20, 26, 31, 37]);
    assert_eq!(archive.folder(1).node.name_off, 16);
    assert_eq!(archive.folder(2).node.name_off, 26);
    assert_eq!(archive.node(archive.file(9)).name_off, 31);
}

#[test]
fn gen_table_holds_a_repeated_name_once() {
    let mut archive = Archive::create("same", true);
    let sub = archive.create_folder("same", Some(0));
    let file = archive.create_file("same", FileAttr(0x11), Some(sub));
    archive.sort().unwrap();
    let table = archive.gen_table().unwrap();
    assert_eq!(table.len(), 3);
    assert_eq!(archive.node(file).name_off, 5);
    assert_eq!(archive.folder(sub).node.name_off, 5);
}

#[test]
fn ranges_lie_apart_and_behind_the_range_of_the_parent() {
    let mut archive = nested(false);
    archive.create_folder("Empty", Some(0));
    archive.sort().unwrap();
    let count = archive.folder_count();
    let range = |d: usize| {
        let node = &archive.folder(d).node;
        (node.file_off as usize, node.file_off as usize + node.file_count as usize)
    };
    for d in 0..count {
        for e in 0..count {
            if d != e {
                assert!(range(d).1 <= range(e).0 || range(e).1 <= range(d).0);
            }
        }
        for &c in &archive.folder(d).children {
            let entry = archive.node(c);
            assert_eq!(entry.parent, Some(d));
            if entry.is_dir() && entry.name != "." && entry.name != ".." {
                assert!(range(d).1 <= range(entry.folder.unwrap()).0);
            }
        }
    }
    let total: usize = (0..count).map(|d| archive.folder(d).node.file_count as usize).sum();
    assert_eq!(total, archive.file_count());
    assert_eq!(range(0).0, 0);
}
