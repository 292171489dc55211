//! What the bytes of an archive hold: the tree that reading them gives, or
//! the reason for which they cannot be read.

use vstd::prelude::*;
use crate::bytes::Endian;
use crate::error::ArchiveError;
use crate::header::{DataHeader, Header, spec_read_headers};
use crate::nodes::directory::{DirModel, NodeModel};
use crate::nodes::file::{FileAttr, FileModel, NO_FOLDER, Node};
use crate::table::{lookup, scan};
use crate::tree::Tree;

verus! {

/// The byte order and the headers of an archive, and its string table.
pub struct Frame {
    pub endian: Endian,
    pub header: Header,
    pub data_header: DataHeader,
    pub names: Seq<(u32, Seq<char>)>,
}

impl Frame {
    /// The base of the offsets of the two headers.
    pub open spec fn base(self) -> int {
        self.header.data_header_off as int
    }

    /// Where the directory table starts.
    pub open spec fn dir_start(self) -> int {
        self.base() + self.data_header.dir_node_off
    }

    /// Where the file table starts.
    pub open spec fn file_start(self) -> int {
        self.base() + self.data_header.file_node_off
    }

    /// Where the payloads start.
    pub open spec fn payload_start(self) -> int {
        self.base() + self.header.file_data_off
    }

    /// The number of directories.
    pub open spec fn dir_count(self) -> int {
        self.data_header.dir_node_count as int
    }

    /// The number of entries of the file table.
    pub open spec fn file_count(self) -> int {
        self.data_header.file_node_count as int
    }
}

/// Where the string table starts.
pub open spec fn names_start(header: Header, data_header: DataHeader) -> int {
    header.data_header_off + data_header.string_tbl_off
}

/// Whether the three tables that the headers describe lie inside data of
/// the length `len`: the string table with its size, the directory table
/// with 16 bytes for each directory, the file table with 20 bytes for each
/// entry.
pub open spec fn tables_fit(header: Header, data_header: DataHeader, len: int) -> bool {
    &&& names_start(header, data_header) + data_header.string_tbl_size <= len
    &&& header.data_header_off + data_header.dir_node_off + 16 * data_header.dir_node_count <= len
    &&& header.data_header_off + data_header.file_node_off + 20 * data_header.file_node_count <= len
}

/// The names of the archive: the string table that the headers describe.
pub open spec fn names_of(data: Seq<u8>, header: Header, data_header: DataHeader) -> Seq<
    (u32, Seq<char>),
> {
    scan(
        data.subrange(
            names_start(header, data_header),
            names_start(header, data_header) + data_header.string_tbl_size,
        ),
    )
}

/// The fixed part of the directory `i`.
pub open spec fn dir_node(data: Seq<u8>, fr: Frame, i: int) -> NodeModel {
    crate::nodes::directory::spec_node(data, fr.dir_start() + 16 * i, fr.endian)
}

/// The fixed part of the entry `j`.
pub open spec fn file_node(data: Seq<u8>, fr: Frame, j: int) -> Node {
    crate::nodes::file::spec_node(data, fr.file_start() + 20 * j, fr.endian)
}

/// The entry `j` as its record and the string table give it, before any
/// directory claims it as a child. The name is empty where the string table
/// lacks it.
pub open spec fn raw_file(data: Seq<u8>, fr: Frame, j: int) -> FileModel {
    let node = file_node(data, fr, j);
    let name_off = (node.attr_and_off % 0x100_0000) as u32;
    let attr = FileAttr((node.attr_and_off / 0x100_0000) as u8);
    let links = attr.spec_contains(FileAttr::FOLDER) && node.data != NO_FOLDER;
    let start = fr.payload_start() + node.data;
    FileModel {
        node,
        attr,
        folder: if links {
            Some(node.data as usize)
        } else {
            None
        },
        parent: None,
        name: match lookup(fr.names, name_off) {
            Some(name) => name,
            None => Seq::empty(),
        },
        name_off,
        data: if !links && attr.spec_contains(FileAttr::FILE) {
            data.subrange(start, start + node.data_size)
        } else {
            Seq::empty()
        },
    }
}

/// What is wrong with the entry `j`, if anything: its name is not in the
/// string table, it names a directory that does not exist, or its payload
/// does not lie inside the data.
pub open spec fn file_error(data: Seq<u8>, fr: Frame, j: int) -> Option<ArchiveError> {
    let file = raw_file(data, fr, j);
    if lookup(fr.names, file.name_off) is None {
        Some(ArchiveError::StringTableLookupFailure)
    } else if file.folder is Some {
        if file.node.data >= fr.dir_count() {
            Some(ArchiveError::CorruptArchive)
        } else {
            None
        }
    } else if file.attr.spec_contains(FileAttr::FILE) && fr.payload_start() + file.node.data
        + file.node.data_size > data.len() {
        Some(ArchiveError::CorruptArchive)
    } else {
        None
    }
}

/// What is wrong with the first entry at or behind `j` with which
/// something is wrong.
pub open spec fn files_error(data: Seq<u8>, fr: Frame, j: int) -> Option<ArchiveError>
    decreases fr.file_count() - j,
{
    if j < 0 || j >= fr.file_count() {
        None
    } else if file_error(data, fr, j) is Some {
        file_error(data, fr, j)
    } else {
        files_error(data, fr, j + 1)
    }
}

/// Whether the children of the directory `i` lie inside the file table.
pub open spec fn range_ok(data: Seq<u8>, fr: Frame, i: int) -> bool {
    dir_node(data, fr, i).file_off + dir_node(data, fr, i).file_count <= fr.file_count()
}

/// Whether the entry `j` is among the children of the directory `i`.
pub open spec fn in_range(data: Seq<u8>, fr: Frame, i: int, j: int) -> bool {
    dir_node(data, fr, i).file_off <= j < dir_node(data, fr, i).file_off + dir_node(
        data,
        fr,
        i,
    ).file_count
}

/// The last of the first `upto` entries that stands for the directory `i`
/// and has its hash.
pub open spec fn self_file(data: Seq<u8>, fr: Frame, i: int, upto: int) -> Option<usize>
    decreases upto,
{
    if upto <= 0 {
        None
    } else if raw_file(data, fr, upto - 1).folder == Some(i as usize) && file_node(
        data,
        fr,
        upto - 1,
    ).hash == dir_node(data, fr, i).hash {
        Some((upto - 1) as usize)
    } else {
        self_file(data, fr, i, upto - 1)
    }
}

/// The last of the first `upto` directories that has the entry `j` among
/// its children.
pub open spec fn parent_of(data: Seq<u8>, fr: Frame, j: int, upto: int) -> Option<usize>
    decreases upto,
{
    if upto <= 0 {
        None
    } else if in_range(data, fr, upto - 1, j) {
        Some((upto - 1) as usize)
    } else {
        parent_of(data, fr, j, upto - 1)
    }
}

/// The directory `i` of the archive: its record, its name, the entry that
/// stands for it, and its range of the file table as its children.
pub open spec fn parsed_dir(data: Seq<u8>, fr: Frame, i: int) -> DirModel {
    let node = dir_node(data, fr, i);
    DirModel {
        node,
        is_root: i == 0,
        name: match lookup(fr.names, node.name_off) {
            Some(name) => name,
            None => Seq::empty(),
        },
        file: self_file(data, fr, i, fr.file_count()),
        children: Seq::new(node.file_count as nat, |k: int| (node.file_off + k) as usize),
    }
}

/// The entry `j` of the archive, with the directory that lists it.
pub open spec fn parsed_file(data: Seq<u8>, fr: Frame, j: int) -> FileModel {
    FileModel { parent: parent_of(data, fr, j, fr.dir_count()), ..raw_file(data, fr, j) }
}

/// The tree that the tables of an archive hold.
pub open spec fn parsed_tree(data: Seq<u8>, fr: Frame) -> Tree {
    Tree {
        header: fr.header,
        data_header: fr.data_header,
        dirs: Seq::new(fr.dir_count() as nat, |i: int| parsed_dir(data, fr, i)),
        entries: Seq::new(fr.file_count() as nat, |j: int| parsed_file(data, fr, j)),
        table: Seq::new(fr.file_count() as nat, |k: int| k as usize),
    }
}

/// What reading `data` gives, where `native` is the byte order of the
/// machine:
/// - the failure of reading the headers, if that fails;
/// - `MalformedHeader`, if one of the three tables does not lie inside the
///   data;
/// - `StringTableLookupFailure`, if the name of a directory is not in the
///   string table;
/// - what is wrong with the first entry with which something is wrong;
/// - `CorruptArchive`, if the children of a directory do not lie inside the
///   file table;
/// - else the tree.
pub open spec fn parse(data: Seq<u8>, native: Endian) -> Result<Tree, ArchiveError> {
    match spec_read_headers(data, native) {
        Err(e) => Err(e),
        Ok((endian, header, data_header)) => {
            let fr = Frame { endian, header, data_header, names: names_of(data, header, data_header) };
            if !tables_fit(header, data_header, data.len() as int) {
                Err(ArchiveError::MalformedHeader)
            } else if exists|i: int|
                0 <= i < fr.dir_count() && lookup(fr.names, (#[trigger] dir_node(data, fr, i)).name_off)
                    is None {
                Err(ArchiveError::StringTableLookupFailure)
            } else if files_error(data, fr, 0) is Some {
                Err(files_error(data, fr, 0).unwrap())
            } else if exists|i: int| 0 <= i < fr.dir_count() && !#[trigger] range_ok(data, fr, i) {
                Err(ArchiveError::CorruptArchive)
            } else {
                Ok(parsed_tree(data, fr))
            }
        },
    }
}

/// Every link of the tree that an archive holds leads somewhere, provided
/// that nothing is wrong with its entries and its ranges.
pub proof fn lemma_parsed_linked(data: Seq<u8>, fr: Frame)
    requires
        forall|j: int| 0 <= j < fr.file_count() ==> file_error(data, fr, j) is None,
        forall|i: int| 0 <= i < fr.dir_count() ==> #[trigger] range_ok(data, fr, i),
    ensures
        parsed_tree(data, fr).linked(),
{
    let t = parsed_tree(data, fr);
    assert forall|d: int, j: int|
        0 <= d < t.dirs.len() && 0 <= j < t.dirs[d].children.len() implies #[trigger] t.dirs[d].children[j]
        < t.entries.len() by {
        assert(range_ok(data, fr, d));
    }
    assert forall|d: int| 0 <= d < t.dirs.len() && (#[trigger] t.dirs[d]).file is Some implies t.dirs[d].file.unwrap()
        < t.entries.len() by {
        lemma_self_file_bound(data, fr, d, fr.file_count());
    }
    assert forall|i: int| 0 <= i < t.entries.len() && (#[trigger] t.entries[i]).folder is Some implies t.entries[i].folder.unwrap()
        < t.dirs.len() by {
        assert(file_error(data, fr, i) is None);
    }
    assert forall|i: int| 0 <= i < t.entries.len() && (#[trigger] t.entries[i]).parent is Some implies t.entries[i].parent.unwrap()
        < t.dirs.len() by {
        lemma_parent_bound(data, fr, i, fr.dir_count());
    }
}

/// The entry that stands for a directory is one of those that were looked at.
pub proof fn lemma_self_file_bound(data: Seq<u8>, fr: Frame, i: int, upto: int)
    requires
        0 <= upto <= usize::MAX,
    ensures
        self_file(data, fr, i, upto) is Some ==> self_file(data, fr, i, upto).unwrap() < upto,
    decreases upto,
{
    if upto > 0 {
        lemma_self_file_bound(data, fr, i, upto - 1);
    }
}

/// The parent of an entry is one of the directories that were looked at.
pub proof fn lemma_parent_bound(data: Seq<u8>, fr: Frame, j: int, upto: int)
    requires
        0 <= upto <= usize::MAX,
    ensures
        parent_of(data, fr, j, upto) is Some ==> parent_of(data, fr, j, upto).unwrap() < upto,
    decreases upto,
{
    if upto > 0 {
        lemma_parent_bound(data, fr, j, upto - 1);
    }
}

} // verus!
