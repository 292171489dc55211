use librarc::archive::{Archive, Found};
use librarc::compress::{compress_yaz0, decompres_yaz0, is_yaz0_complete, or_input, CompressionLevel};
use librarc::error::ArchiveError;
use librarc::lastpos::LastPos as VecLastPos;
use librarc::names::is_clean;
use librarc::nodes::file::FileAttr;
use librarc::paths::{copy_path, extend_path, join_path, reversed};
use librarc::seektask::readntstringat;
use librarc::text::{bytes_eq, decode_range, str_eq};
use librarc::traits::LastPos as SliceLastPos;
use librarc::util::{decode, encode, is_decodable, is_encodable, is_last_unique, or_corrupt, EncodeAlgo};

#[test]
fn lastpos_of_a_vector_is_its_length_less_one() {
    assert_eq!(VecLastPos::lastpos(&vec![1, 2, 3]), 2);
    assert_eq!(VecLastPos::lastpos(&vec!['a']), 0);
}

#[test]
fn lastpos_of_an_empty_slice_is_zero() {
    let empty: &[u8] = &[];
    let three: &[u8] = &[7, 8, 9];
    assert_eq!(SliceLastPos::lastpos(&empty), 0);
    assert_eq!(SliceLastPos::lastpos(&three), 2);
}

#[test]
fn text_at_a_position_ends_before_the_zero() {
    let data = b"ab\0cde\0f";
    assert_eq!(readntstringat(data, 0), "ab");
    assert_eq!(readntstringat(data, 1), "b");
    assert_eq!(readntstringat(data, 3), "cde");
}

#[test]
fn text_at_a_zero_byte_is_that_byte() {
    assert_eq!(readntstringat(b"ab\0cde\0f", 2), "\0");
}

#[test]
fn text_without_terminator_loses_its_last_byte() {
    assert_eq!(readntstringat(b"ab\0cde", 3), "cd");
    assert_eq!(readntstringat(b"ab\0c", 3), "c");
}

#[test]
fn text_behind_the_end_is_empty() {
    assert_eq!(readntstringat(b"ab\0", 3), "");
    assert_eq!(readntstringat(b"ab\0", 300), "");
    assert_eq!(readntstringat(b"", 0), "");
}

#[test]
fn text_with_invalid_bytes_is_repaired() {
    assert_eq!(readntstringat(&[0xFF, 0x41, 0x00], 0), "\u{FFFD}A");
    assert_eq!(decode_range(&[0x41, 0xC3, 0xA9, 0x42], 1, 3), "é");
}

#[test]
fn texts_are_compared_by_their_bytes() {
    assert!(bytes_eq(b"abc", b"abc"));
    assert!(!bytes_eq(b"abc", b"abd"));
    assert!(!bytes_eq(b"abc", b"ab"));
    assert!(bytes_eq(b"", b""));
    assert!(str_eq("é", "é"));
    assert!(!str_eq("e", "é"));
}

#[test]
fn compressed_data_start_with_the_yaz0_header() {
    let data: Vec<u8> = (0..200u32).map(|i| (i % 7) as u8).collect();
    let packed = compress_yaz0(&data, CompressionLevel::Lookahead { quality: 7 });
    assert_eq!(&packed[0..4], b"Yaz0");
    assert_eq!(&packed[4..8], &[0, 0, 0, 200]);
    assert_ne!(packed, data);
    assert!(packed.len() < data.len());
    let naive = compress_yaz0(&data, CompressionLevel::Naive { quality: 10 });
    assert_eq!(&naive[0..4], b"Yaz0");
}

#[test]
fn compressed_data_are_what_the_decoder_undoes() {
    let data: Vec<u8> = b"abcabcabcabcabc-abcabcabcabcabc".to_vec();
    let packed = compress_yaz0(&data, CompressionLevel::Lookahead { quality: 10 });
    let mut decoder = yaz0::Yaz0Archive::new(std::io::Cursor::new(packed)).unwrap();
    assert_eq!(decoder.decompress().unwrap(), data);
}

#[test]
fn compression_of_nothing_is_a_header() {
    let packed = compress_yaz0(&[], CompressionLevel::Naive { quality: 1 });
    assert_eq!(packed, b"Yaz0\0\0\0\0\0\0\0\0\0\0\0\0");
}

fn yaz0(size: u32, stream: &[u8]) -> Vec<u8> {
    let mut file = b"Yaz0".to_vec();
    file.extend_from_slice(&size.to_be_bytes());
    file.extend_from_slice(&[0; 8]);
    file.extend_from_slice(stream);
    file
}

#[test]
fn decompression_undoes_compression() {
    let data: Vec<u8> = (0..500u32).map(|i| (i * i % 11) as u8).collect();
    for level in [CompressionLevel::Naive { quality: 3 }, CompressionLevel::Lookahead { quality: 10 }] {
        let packed = compress_yaz0(&data, level);
        assert!(is_yaz0_complete(&packed));
        assert_eq!(decompres_yaz0(&packed), data);
    }
    let empty = compress_yaz0(&[], CompressionLevel::Naive { quality: 1 });
    assert!(is_yaz0_complete(&empty));
    assert_eq!(decompres_yaz0(&empty), Vec::<u8>::new());
}

#[test]
fn decompression_takes_bytes_over_and_copies_runs() {
    // three bytes taken over, then a copy of six bytes from three back
    let file = yaz0(9, &[0b1110_0000, b'a', b'b', b'c', 0x40, 0x02]);
    assert!(is_yaz0_complete(&file));
    assert_eq!(decompres_yaz0(&file), b"abcabcabc");
    // a long copy: one byte, then 0x12 + 1 copies of it
    let file = yaz0(20, &[0b1000_0000, b'z', 0x00, 0x00, 0x01]);
    assert!(is_yaz0_complete(&file));
    assert_eq!(decompres_yaz0(&file), vec![b'z'; 20]);
}

#[test]
fn data_that_are_no_yaz0_file_are_given_back() {
    assert_eq!(decompres_yaz0(b"RARC and more"), b"RARC and more");
    assert_eq!(decompres_yaz0(b""), b"");
    assert_eq!(decompres_yaz0(b"Yaz0"), b"Yaz0");
    assert!(!is_yaz0_complete(b"Yaz1\0\0\0\0\0\0\0\0\0\0\0\0"));
}

#[test]
fn stream_that_ends_early_is_given_back() {
    let file = yaz0(4, &[0b1111_0000, b'a', b'b']);
    assert!(!is_yaz0_complete(&file));
    assert_eq!(decompres_yaz0(&file), file);
    let file = yaz0(1, &[]);
    assert!(!is_yaz0_complete(&file));
    assert_eq!(decompres_yaz0(&file), file);
    // a copy without its second byte, and a long copy without its count
    assert!(!is_yaz0_complete(&yaz0(9, &[0b1000_0000, b'a', 0x40])));
    assert!(!is_yaz0_complete(&yaz0(30, &[0b1000_0000, b'a', 0x00, 0x00])));
}

#[test]
fn copy_from_before_the_start_is_given_back() {
    // the first thing is a copy, when nothing is made yet
    let file = yaz0(3, &[0b0000_0000, 0x10, 0x00]);
    assert!(!is_yaz0_complete(&file));
    assert_eq!(decompres_yaz0(&file), file);
    // one byte is made, and the copy reaches two back
    let file = yaz0(4, &[0b1000_0000, b'a', 0x10, 0x01]);
    assert!(!is_yaz0_complete(&file));
    assert_eq!(decompres_yaz0(&file), file);
}

#[test]
fn copy_beyond_the_size_is_given_back() {
    // two bytes are made, the size is four, and the copy makes three
    let file = yaz0(4, &[0b1100_0000, b'a', b'b', 0x10, 0x01]);
    assert!(!is_yaz0_complete(&file));
    assert_eq!(decompres_yaz0(&file), file);
    let fits = yaz0(5, &[0b1100_0000, b'a', b'b', 0x10, 0x01]);
    assert!(is_yaz0_complete(&fits));
    assert_eq!(decompres_yaz0(&fits), b"ababa");
}

#[test]
fn file_of_size_zero_needs_no_stream() {
    assert!(is_yaz0_complete(b"Yaz0\0\0\0\0"));
    assert_eq!(decompres_yaz0(b"Yaz0\0\0\0\0"), Vec::<u8>::new());
    let with_stream = yaz0(0, &[0xFF, 1, 2, 3]);
    assert_eq!(decompres_yaz0(&with_stream), Vec::<u8>::new());
}

#[test]
fn huge_size_without_stream_is_given_back() {
    let file = yaz0(u32::MAX, &[0b1000_0000, b'a']);
    assert!(!is_yaz0_complete(&file));
    assert_eq!(decompres_yaz0(&file), file);
}

#[test]
fn or_input_keeps_what_was_made() {
    assert_eq!(or_input(Some(vec![1, 2]), &[9]), vec![1, 2]);
    assert_eq!(or_input(None, &[9, 8]), vec![9, 8]);
    assert_eq!(or_input(Some(vec![]), &[9]), Vec::<u8>::new());
}

fn stage() -> Archive {
    let mut archive = Archive::create("Stage", true);
    let sub = archive.create_folder("Sub", Some(0));
    let file = archive.create_file("a.bin", FileAttr(0x11), Some(sub));
    archive.set_data(file, vec![1, 2, 3, 4]);
    archive.create_file("top.txt", FileAttr(0x11), Some(0));
    archive
}

#[test]
fn unpack_plan_names_every_directory_and_file() {
    let archive = stage();
    let steps = archive.unpack_plan().unwrap();
    let listed: Vec<(Vec<String>, Option<usize>)> =
        steps.iter().map(|s| (s.path.clone(), s.entry)).collect();
    let path = |names: &[&str]| names.iter().map(|n| n.to_string()).collect::<Vec<_>>();
    assert_eq!(listed.len(), 4);
    assert_eq!(listed[0], (path(&["Stage"]), None));
    assert_eq!(listed[1], (path(&["Stage", "Sub"]), None));
    assert_eq!(listed[2].0, path(&["Stage", "Sub", "a.bin"]));
    assert_eq!(archive.node(listed[2].1.unwrap()).data, vec![1, 2, 3, 4]);
    assert_eq!(listed[3].0, path(&["Stage", "top.txt"]));
    assert!(Archive::new().unpack_plan().unwrap().is_empty());
}

#[test]
fn names_lead_from_the_root_down() {
    let archive = stage();
    assert_eq!(archive.dir_names(0), vec!["Stage"]);
    assert_eq!(archive.dir_names(1), vec!["Stage", "Sub"]);
    let file = archive.folder(1).children[2];
    assert_eq!(archive.file_names(file), vec!["Stage", "Sub", "a.bin"]);
    let mut names = vec!["x".to_string()];
    archive.add_names_from(1, &mut names);
    assert_eq!(names, vec!["x", "Sub", "Stage"]);
    let mut own = Vec::new();
    archive.folder(1).add_name(&archive, &mut own);
    assert_eq!(own, vec!["Sub", "Stage"]);
}

#[test]
fn paths_are_joined_as_the_machine_joins_them() {
    let archive = stage();
    let sep = std::path::MAIN_SEPARATOR;
    assert_eq!(archive.folder(1).to_string(&archive), format!("Stage{sep}Sub"));
    assert_eq!(archive.folder(0).to_string(&archive), "Stage");
    let file = archive.folder(1).children[2];
    assert_eq!(archive.node(file).to_string(&archive), format!("Stage{sep}Sub{sep}a.bin"));
    assert_eq!(join_path(&vec![]), "");
    assert_eq!(join_path(&vec!["a".to_string(), "b".to_string()]), format!("a{sep}b"));
}

#[test]
fn paths_are_copied_extended_and_reversed() {
    let path = vec!["a".to_string(), "b".to_string()];
    assert_eq!(copy_path(&path), path);
    assert_eq!(extend_path(&path, &"c".to_string()), vec!["a", "b", "c"]);
    assert_eq!(reversed(&path), vec!["b", "a"]);
    assert!(reversed(&Vec::new()).is_empty());
}

#[test]
fn import_entry_takes_directories_and_files() {
    let mut archive = Archive::create("root", true);
    let attr = FileAttr(0x11);
    assert_eq!(archive.import_entry(".", Found::Folder, attr, Some(0)), Ok(None));
    assert_eq!(archive.import_entry("..", Found::File(vec![1]), attr, Some(0)), Ok(None));
    assert_eq!(archive.import_entry("dev", Found::Other, attr, Some(0)), Ok(None));
    assert_eq!(archive.folder_count(), 1);
    assert_eq!(archive.node_count(), 2);

    let sub = archive.import_entry("Sub", Found::Folder, attr, Some(0)).unwrap().unwrap();
    assert_eq!(sub, 1);
    assert_eq!(archive.import_entry("a.bin", Found::File(vec![1, 2, 3]), attr, Some(sub)), Ok(None));
    let file = archive.folder(sub).children[2];
    assert_eq!(archive.node(file).name, "a.bin");
    assert_eq!(archive.node(file).data, vec![1, 2, 3]);
    assert_eq!(archive.node(file).node.data_size, 3);
    assert_eq!(archive.node(file).attr, attr);
}

#[test]
fn import_entry_fails_where_no_id_is_left() {
    let mut archive = Archive::create("root", false);
    archive.set_next_id(u16::MAX);
    let before = archive.node_count();
    assert_eq!(
        archive.import_entry("a", Found::File(vec![]), FileAttr(0x11), Some(0)),
        Err(ArchiveError::TooLarge)
    );
    assert_eq!(archive.node_count(), before);
    assert!(archive.import_entry("d", Found::Folder, FileAttr(0x11), Some(0)).is_ok());
}

fn szs_file(size: u32, stream: &[u8]) -> Vec<u8> {
    let mut file = b"Yaz0".to_vec();
    file.extend_from_slice(&size.to_be_bytes());
    file.extend_from_slice(&[0; 8]);
    file.extend_from_slice(stream);
    file
}

#[test]
fn decode_takes_bytes_over_and_copies_runs() {
    let plain = szs_file(8, &[0xFF, 1, 2, 3, 4, 5, 6, 7, 8]);
    assert_eq!(decode(&plain), Ok(vec![1, 2, 3, 4, 5, 6, 7, 8]));
    // one byte, then a copy of four from one byte back
    let run = szs_file(5, &[0x80, b'A', 0x20, 0x00]);
    assert_eq!(decode(&run), Ok(b"AAAAA".to_vec()));
    // a long copy: eighteen and two more from three bytes back
    let long = szs_file(23, &[0xE0, b'a', b'b', b'c', 0x00, 0x02, 0x02]);
    assert_eq!(decode(&long), Ok(b"abcabcabcabcabcabcabcabc"[..23].to_vec()));
    assert_eq!(decode(&szs_file(0, &[])), Ok(Vec::new()));
}

#[test]
fn decode_undoes_the_yaz0_compressor() {
    let data: Vec<u8> = (0..2000u32).map(|i| (i % 7) as u8 ^ (i / 100) as u8).collect();
    let packed = compress_yaz0(&data, CompressionLevel::Lookahead { quality: 10 });
    assert!(is_decodable(&packed));
    assert_eq!(decode(&packed), Ok(data));
}

#[test]
fn decode_refuses_what_the_decoder_cannot_take() {
    // no Yaz0 file
    assert_eq!(decode(b"RARC and more than eight bytes"), Err(ArchiveError::CorruptArchive));
    assert_eq!(decode(b"Yaz0"), Err(ArchiveError::CorruptArchive));
    // the stream ends before the size is made
    assert_eq!(decode(&szs_file(9, &[0xFF, 1, 2, 3, 4, 5, 6, 7, 8])), Err(ArchiveError::CorruptArchive));
    // a copy from before the start of what is made
    assert_eq!(decode(&szs_file(5, &[0x80, b'A', 0x20, 0x01])), Err(ArchiveError::CorruptArchive));
    // a copy that makes more than the header says
    assert_eq!(decode(&szs_file(4, &[0x80, b'A', 0x20, 0x00])), Err(ArchiveError::CorruptArchive));
    // a copy that stops inside its two bytes
    assert_eq!(decode(&szs_file(5, &[0x80, b'A', 0x20])), Err(ArchiveError::CorruptArchive));
    // more than the decoder can count
    assert!(!is_decodable(&szs_file(0x8000_0000, &[0xFF, 1])));
    assert_eq!(decode(&szs_file(0x8000_0000, &[0xFF, 1])), Err(ArchiveError::CorruptArchive));
}

#[test]
fn or_corrupt_keeps_what_was_made() {
    assert_eq!(or_corrupt(Some(vec![1, 2])), Ok(vec![1, 2]));
    assert_eq!(or_corrupt(None), Err(ArchiveError::CorruptArchive));
}

#[test]
fn clean_names_are_not_empty_and_hold_no_zero_byte() {
    assert!(is_clean("a"));
    assert!(is_clean("."));
    assert!(is_clean("é b"));
    assert!(!is_clean(""));
    assert!(!is_clean("\0"));
    assert!(!is_clean("ab\0"));
}

fn sample(len: usize) -> Vec<u8> {
    let mut data: Vec<u8> = (0..len).map(|i| ((i % 13) as u8 ^ (i / 50) as u8) & 0x7F).collect();
    if let Some(last) = data.last_mut() {
        *last = 0xFE;
    }
    data
}

#[test]
fn every_encoder_that_runs_makes_a_file_that_decodes() {
    let algos = [
        EncodeAlgo::WorstCaseEncodingRust,
        EncodeAlgo::WorstCaseEncodingReference,
        EncodeAlgo::MkwRust,
        EncodeAlgo::MkwReference,
        EncodeAlgo::MkwSp,
        EncodeAlgo::Haroohie,
        EncodeAlgo::CtLib,
        EncodeAlgo::LibYaz0Reference,
        EncodeAlgo::LibYaz0RustLibc,
        EncodeAlgo::LibYaz0RustMemchr,
        EncodeAlgo::Mk8,
    ];
    for len in [0usize, 1, 2, 7, 8, 9, 300, 4095] {
        let data = sample(len);
        for algo in algos {
            assert!(is_encodable(&data, algo), "{:?} on {} bytes", algo, len);
            let packed = encode(&data, algo).unwrap();
            assert_eq!(&packed[..4], b"Yaz0", "{:?} on {} bytes", algo, len);
            assert_eq!(decode(&packed), Ok(data.clone()), "{:?} on {} bytes", algo, len);
        }
    }
}

#[test]
fn worst_case_encoding_takes_every_byte_over() {
    let packed = encode(&[1, 2, 3, 4, 5, 6, 7, 8, 9], EncodeAlgo::WorstCaseEncodingRust).unwrap();
    let mut expected = b"Yaz0".to_vec();
    expected.extend_from_slice(&[0, 0, 0, 9, 0, 0, 0, 0, 0, 0, 0, 0]);
    expected.extend_from_slice(&[0xFF, 1, 2, 3, 4, 5, 6, 7, 8, 0x80, 9]);
    expected.resize(32, 0);
    assert_eq!(packed, expected);
    assert_eq!(encode(&[1, 2, 3, 4, 5, 6, 7, 8, 9], EncodeAlgo::WorstCaseEncodingReference), Ok(expected));
}

#[test]
fn encoders_are_not_run_where_they_leave_their_buffers() {
    let data = sample(300);
    assert_eq!(encode(&data, EncodeAlgo::Ctgp), Err(ArchiveError::EncoderRefused));
    assert_eq!(encode(&[], EncodeAlgo::Ctgp), Err(ArchiveError::EncoderRefused));
    // the last byte stands elsewhere too
    assert_eq!(encode(b"abca", EncodeAlgo::Haroohie), Err(ArchiveError::EncoderRefused));
    assert_eq!(encode(b"abca", EncodeAlgo::CtLib), Err(ArchiveError::EncoderRefused));
    assert!(encode(b"abca", EncodeAlgo::MkwSp).is_ok());
    assert!(encode(b"abcd", EncodeAlgo::Haroohie).is_ok());
    // too long for the first table, and for a window that stays
    assert_eq!(encode(&sample(0x1000), EncodeAlgo::CtLib), Err(ArchiveError::EncoderRefused));
    assert!(encode(&sample(0xFFF), EncodeAlgo::CtLib).is_ok());
    assert_eq!(encode(&sample(0x1EEE), EncodeAlgo::Mk8), Err(ArchiveError::EncoderRefused));
    let long = sample(0x1EED);
    assert_eq!(decode(&encode(&long, EncodeAlgo::Mk8).unwrap()), Ok(long));
}

#[test]
fn last_byte_is_unique_where_it_stands_nowhere_else() {
    assert!(is_last_unique(&[]));
    assert!(is_last_unique(&[5]));
    assert!(is_last_unique(&[1, 2, 3]));
    assert!(!is_last_unique(&[3, 2, 3]));
    assert!(!is_last_unique(&[1, 3, 3]));
    assert!(is_last_unique(&[1, 1, 3]));
}

fn noise(seed: u32, len: usize, spread: u32) -> Vec<u8> {
    let mut state = seed.wrapping_mul(2654435761).wrapping_add(12345);
    (0..len)
        .map(|_| {
            state = state.wrapping_mul(1664525).wrapping_add(1013904223);
            ((state >> 24) % spread) as u8
        })
        .collect()
}

#[test]
fn encoders_keep_to_their_buffers_on_runs_and_noise() {
    let free = [
        EncodeAlgo::WorstCaseEncodingRust,
        EncodeAlgo::WorstCaseEncodingReference,
        EncodeAlgo::MkwRust,
        EncodeAlgo::MkwReference,
        EncodeAlgo::MkwSp,
        EncodeAlgo::LibYaz0Reference,
        EncodeAlgo::LibYaz0RustLibc,
        EncodeAlgo::LibYaz0RustMemchr,
    ];
    let mut inputs: Vec<Vec<u8>> = vec![vec![0; 5000], vec![0xFF; 273], vec![7; 18], b"abababababababab".to_vec()];
    for seed in 0..12u32 {
        inputs.push(noise(seed, 40 + 700 * seed as usize, 1 + seed % 5));
        inputs.push(noise(seed + 100, 3 + seed as usize, 2));
    }
    for data in &inputs {
        for algo in free {
            let packed = encode(data, algo).unwrap();
            assert_eq!(decode(&packed).as_ref(), Ok(data), "{:?} on {} bytes", algo, data.len());
        }
        let mut marked = data.clone();
        marked.iter_mut().for_each(|b| *b &= 0x7F);
        marked.push(0x80);
        let packed = encode(&marked, EncodeAlgo::Haroohie).unwrap();
        assert_eq!(decode(&packed), Ok(marked.clone()));
        if marked.len() <= 0xFFF {
            let packed = encode(&marked, EncodeAlgo::CtLib).unwrap();
            assert_eq!(decode(&packed), Ok(marked.clone()));
        }
        if marked.len() < 0x1EEE {
            let packed = encode(data, EncodeAlgo::Mk8).unwrap();
            assert_eq!(decode(&packed).as_ref(), Ok(data));
        }
    }
}
