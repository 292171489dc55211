use librarc::error::ArchiveError;
use librarc::table::Table;

#[test]
fn add_gives_running_offsets() {
    let mut table = Table::new();
    assert_eq!(table.add("."), 0);
    assert_eq!(table.add(".."), 2);
    assert_eq!(table.add("Stage"), 5);
    assert_eq!(table.add("Sub"), 11);
    assert_eq!(table.add("a.bin"), 15);
    assert_eq!(table.len(), 5);
}

#[test]
fn add_twice_gives_the_same_offset() {
    let mut table = Table::new();
    let first = table.add("name");
    table.add("other");
    let second = table.add("name");
    assert_eq!(first, second);
    assert_eq!(table.len(), 2);
}

#[test]
fn different_texts_get_different_offsets() {
    let mut table = Table::new();
    let a = table.add("a");
    let b = table.add("b");
    let c = table.add("");
    let d = table.add("ab");
    assert_ne!(a, b);
    assert_ne!(b, c);
    assert_ne!(c, d);
    assert_eq!((a, b, c, d), (0, 2, 4, 5));
}

#[test]
fn multi_byte_text_counts_its_bytes() {
    let mut table = Table::new();
    assert_eq!(table.add("é"), 0);
    // two bytes and the terminator
    assert_eq!(table.add("x"), 3);
}

#[test]
fn lookup_finds_only_the_start_of_a_text() {
    let mut table = Table::new();
    table.add(".");
    table.add("..");
    table.add("Stage");
    assert_eq!(table.lookup(0), Ok(".".to_string()));
    assert_eq!(table.lookup(2), Ok("..".to_string()));
    assert_eq!(table.lookup(5), Ok("Stage".to_string()));
    assert_eq!(table.lookup(1), Err(ArchiveError::StringTableLookupFailure));
    assert_eq!(table.lookup(6), Err(ArchiveError::StringTableLookupFailure));
    assert_eq!(table.lookup(11), Err(ArchiveError::StringTableLookupFailure));
}

#[test]
fn offset_of_finds_the_text() {
    let mut table = Table::new();
    table.add("one");
    table.add("two");
    assert_eq!(table.offset_of("one"), Some(0));
    assert_eq!(table.offset_of("two"), Some(4));
    assert_eq!(table.offset_of("three"), None);
    assert!(table.has_room("three"));
    assert_eq!(table.next_free(), Some(8));
}

#[test]
fn accessors_give_the_entries_in_order() {
    let mut table = Table::new();
    table.add("one");
    table.add("two");
    assert_eq!(table.offset_at(0), 0);
    assert_eq!(table.text_at(0), "one");
    assert_eq!(table.offset_at(1), 4);
    assert_eq!(table.text_at(1), "two");
}

#[test]
fn serialize_pads_to_a_multiple_of_32() {
    let mut table = Table::new();
    table.add(".");
    table.add("..");
    table.add("X");
    let bytes = table.serialize();
    let mut expected = b".\0..\0X\0".to_vec();
    expected.resize(32, 0);
    assert_eq!(bytes, expected);
    assert_eq!(table.total_size(), Some(32));
}

#[test]
fn serialize_adds_nothing_to_a_full_block() {
    let mut table = Table::new();
    // 31 bytes and the terminator
    table.add("0123456789012345678901234567890");
    assert_eq!(table.serialize().len(), 32);
    assert_eq!(table.total_size(), Some(32));
    table.add("x");
    assert_eq!(table.serialize().len(), 64);
    assert_eq!(table.total_size(), Some(64));
}

#[test]
fn empty_table_serializes_to_nothing() {
    let table = Table::new();
    assert_eq!(table.serialize(), Vec::<u8>::new());
    assert_eq!(table.total_size(), Some(0));
    assert_eq!(table.next_free(), Some(0));
}

#[test]
fn write_pads_the_table_wherever_it_starts() {
    let mut table = Table::new();
    table.add("abc");
    let mut out = vec![0xAA; 30];
    table.write(&mut out);
    // 4 bytes of text are padded to 32, behind the 30 bytes that were there
    assert_eq!(table.total_size(), Some(32));
    assert_eq!(out.len(), 62);
    assert_eq!(&out[..30], &[0xAA; 30]);
    assert_eq!(&out[30..34], b"abc\0");
    assert!(out[34..].iter().all(|b| *b == 0));
    assert_eq!(&out[30..], &table.serialize()[..]);

    let mut single = Table::new();
    single.add("X");
    let mut behind = vec![7];
    single.write(&mut behind);
    assert_eq!(behind.len(), 1 + 32);
    assert_eq!(&behind[1..3], b"X\0");
}

#[test]
fn from_data_reads_what_serialize_wrote() {
    let mut table = Table::new();
    table.add(".");
    table.add("..");
    table.add("Stage");
    table.add("é");
    let back = Table::from_data(&table.serialize());
    assert_eq!(back.len(), 4);
    assert_eq!(back.lookup(0), Ok(".".to_string()));
    assert_eq!(back.lookup(2), Ok("..".to_string()));
    assert_eq!(back.lookup(5), Ok("Stage".to_string()));
    assert_eq!(back.lookup(11), Ok("é".to_string()));
}

#[test]
fn from_data_stops_where_only_zeros_are_left() {
    let table = Table::from_data(b"a\0bc\0\0\0\0\0");
    assert_eq!(table.len(), 2);
    assert_eq!(table.lookup(0), Ok("a".to_string()));
    assert_eq!(table.lookup(2), Ok("bc".to_string()));
    assert_eq!(table.lookup(5), Err(ArchiveError::StringTableLookupFailure));
}

#[test]
fn from_data_keeps_an_empty_text_between_others() {
    let table = Table::from_data(b"a\0\0b\0");
    assert_eq!(table.len(), 3);
    assert_eq!(table.lookup(0), Ok("a".to_string()));
    assert_eq!(table.lookup(2), Ok(String::new()));
    assert_eq!(table.lookup(3), Ok("b".to_string()));
}

#[test]
fn from_data_takes_a_last_text_without_terminator() {
    let table = Table::from_data(b"a\0bc");
    assert_eq!(table.len(), 2);
    assert_eq!(table.lookup(2), Ok("bc".to_string()));
}

#[test]
fn from_data_of_zeros_is_empty() {
    assert_eq!(Table::from_data(&[0u8; 32]).len(), 0);
    assert_eq!(Table::from_data(&[]).len(), 0);
}

#[test]
fn from_data_replaces_invalid_bytes() {
    let table = Table::from_data(&[0x61, 0xFF, 0x62, 0x00]);
    assert_eq!(table.lookup(0), Ok("a\u{FFFD}b".to_string()));
}
