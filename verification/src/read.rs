//! Reading the tables of an archive.

use vstd::prelude::*;
use crate::bytes::Endian;
use crate::error::ArchiveError;
use crate::header::{DataHeader, Header};
use crate::nodes::directory::{Directory, DirModel};
use crate::nodes::file::{File, FileAttr, FileModel, NAME_OFF_LIMIT, NO_FOLDER};
use crate::parse::{
    dir_node, file_error, file_node, files_error, Frame, names_of, names_start, parent_of,
    parsed_dir, range_ok, raw_file, self_file, tables_fit,
};
use crate::table::{lookup, Table};
use vstd::slice::slice_subrange;

verus! {

/// Whether the three tables that the headers describe lie inside the data.
pub fn check_tables(header: &Header, data_header: &DataHeader, len: usize) -> (ok: bool)
    ensures
        ok == tables_fit(*header, *data_header, len as int),
{
    let base: u64 = header.data_header_off as u64;
    let len: u64 = len as u64;
    base + data_header.string_tbl_off as u64 + data_header.string_tbl_size as u64 <= len && base
        + data_header.dir_node_off as u64 + 16 * (data_header.dir_node_count as u64) <= len && base
        + data_header.file_node_off as u64 + 20 * (data_header.file_node_count as u64) <= len
}

/// Reads the string table that the headers describe, or fails with
/// `MalformedHeader` if it does not lie inside the data.
pub fn read_names(data: &[u8], header: &Header, data_header: &DataHeader) -> (res: Result<
    Table,
    ArchiveError,
>)
    ensures
        match res {
            Ok(table) => {
                &&& names_start(*header, *data_header) + data_header.string_tbl_size <= data@.len()
                &&& table@ == names_of(data@, *header, *data_header)
            },
            Err(e) => {
                &&& e == ArchiveError::MalformedHeader
                &&& names_start(*header, *data_header) + data_header.string_tbl_size > data@.len()
            },
        },
{
    let start: u64 = header.data_header_off as u64 + data_header.string_tbl_off as u64;
    let end: u64 = start + data_header.string_tbl_size as u64;
    if end > data.len() as u64 {
        return Err(ArchiveError::MalformedHeader);
    }
    let window = slice_subrange(data, start as usize, end as usize);
    Ok(Table::from_data(window))
}

/// Reads the directories: the record and the name of each. Fails with
/// `StringTableLookupFailure` if the string table lacks a name.
pub(crate) fn parse_dirs(
    data: &[u8],
    header: &Header,
    data_header: &DataHeader,
    table: &Table,
    endian: Endian,
    Ghost(fr): Ghost<Frame>,
) -> (res: Result<Vec<Directory>, ArchiveError>)
    requires
        fr == (Frame { endian, header: *header, data_header: *data_header, names: table@ }),
        tables_fit(fr.header, fr.data_header, data@.len() as int),
    ensures
        match res {
            Ok(folders) => {
                &&& folders@.len() == fr.dir_count()
                &&& forall|i: int|
                    0 <= i < fr.dir_count() ==> lookup(fr.names, (#[trigger] dir_node(data@, fr, i)).name_off)
                        is Some
                &&& forall|i: int|
                    0 <= i < fr.dir_count() ==> (#[trigger] folders@[i])@ == (DirModel {
                        file: None,
                        children: Seq::empty(),
                        ..parsed_dir(data@, fr, i)
                    })
            },
            Err(e) => {
                &&& e == ArchiveError::StringTableLookupFailure
                &&& exists|i: int|
                    0 <= i < fr.dir_count() && lookup(fr.names, (#[trigger] dir_node(data@, fr, i)).name_off)
                        is None
            },
        },
{
    let len = data.len();
    let start: usize = (header.data_header_off as u64 + data_header.dir_node_off as u64) as usize;
    let count: usize = data_header.dir_node_count as usize;
    let mut folders: Vec<Directory> = Vec::new();
    let mut i: usize = 0;
    while i < count
        invariant
            i <= count,
            count == fr.dir_count(),
            start == fr.dir_start(),
            fr.names == table@,
            fr.endian == endian,
            start + 16 * count <= data@.len(),
            len == data@.len(),
            folders@.len() == i,
            forall|x: int|
                0 <= x < i ==> lookup(fr.names, (#[trigger] dir_node(data@, fr, x)).name_off) is Some,
            forall|x: int|
                0 <= x < i ==> (#[trigger] folders@[x])@ == (DirModel {
                    file: None,
                    children: Seq::empty(),
                    ..parsed_dir(data@, fr, x)
                }),
        decreases count - i,
    {
        let node = crate::nodes::directory::read_node(data, start + 16 * i, endian);
        assert(node@ == dir_node(data@, fr, i as int));
        let name = match table.lookup(node.name_off) {
            Ok(name) => name,
            Err(e) => {
                return Err(e);
            },
        };
        let dir = Directory { node, is_root: i == 0, name, file: None, children: Vec::new() };
        assert(dir.children@ =~= Seq::<usize>::empty());
        folders.push(dir);
        i += 1;
    }
    Ok(folders)
}

/// Reads the entries of the file table: the record, the name, and the
/// directory or the payload of each. Tells each directory which entry
/// stands for it. Fails at the first entry with which something is wrong.
pub(crate) fn parse_files(
    data: &[u8],
    header: &Header,
    data_header: &DataHeader,
    table: &Table,
    endian: Endian,
    folders: &mut Vec<Directory>,
    Ghost(fr): Ghost<Frame>,
) -> (res: Result<Vec<File>, ArchiveError>)
    requires
        fr == (Frame { endian, header: *header, data_header: *data_header, names: table@ }),
        tables_fit(fr.header, fr.data_header, data@.len() as int),
        old(folders)@.len() == fr.dir_count(),
        forall|i: int|
            0 <= i < fr.dir_count() ==> (#[trigger] old(folders)@[i])@ == (DirModel {
                file: None,
                children: Seq::empty(),
                ..parsed_dir(data@, fr, i)
            }),
    ensures
        final(folders)@.len() == fr.dir_count(),
        match res {
            Ok(nodes) => {
                &&& files_error(data@, fr, 0) is None
                &&& nodes@.len() == fr.file_count()
                &&& forall|j: int| 0 <= j < fr.file_count() ==> (#[trigger] nodes@[j])@ == raw_file(data@, fr, j)
                &&& forall|j: int| 0 <= j < fr.file_count() ==> file_error(data@, fr, j) is None
                &&& forall|i: int|
                    0 <= i < fr.dir_count() ==> (#[trigger] final(folders)@[i])@ == (DirModel {
                        children: Seq::empty(),
                        ..parsed_dir(data@, fr, i)
                    })
            },
            Err(e) => files_error(data@, fr, 0) == Some(e),
        },
{
    let len = data.len();
    let start: usize = (header.data_header_off as u64 + data_header.file_node_off as u64) as usize;
    let count: usize = data_header.file_node_count as usize;
    let dir_count: usize = folders.len();
    let payload_start: u64 = header.data_header_off as u64 + header.file_data_off as u64;
    let mut nodes: Vec<File> = Vec::new();
    let mut j: usize = 0;
    while j < count
        invariant
            j <= count,
            count == fr.file_count(),
            dir_count == fr.dir_count(),
            start == fr.file_start(),
            payload_start == fr.payload_start(),
            fr.names == table@,
            fr.endian == endian,
            start + 20 * count <= data@.len(),
            len == data@.len(),
            nodes@.len() == j,
            folders@.len() == dir_count,
            files_error(data@, fr, 0) == files_error(data@, fr, j as int),
            forall|x: int| 0 <= x < j ==> (#[trigger] nodes@[x])@ == raw_file(data@, fr, x),
            forall|x: int| 0 <= x < j ==> file_error(data@, fr, x) is None,
            forall|i: int|
                0 <= i < dir_count ==> (#[trigger] folders@[i])@ == (DirModel {
                    file: self_file(data@, fr, i, j as int),
                    children: Seq::empty(),
                    ..parsed_dir(data@, fr, i)
                }),
        decreases count - j,
    {
        let node = crate::nodes::file::read_node(data, start + 20 * j, endian);
        assert(node == file_node(data@, fr, j as int));
        let name_off: u32 = node.attr_and_off % NAME_OFF_LIMIT;
        let attr = FileAttr((node.attr_and_off / NAME_OFF_LIMIT) as u8);
        let ghost raw = raw_file(data@, fr, j as int);
        let name = match table.lookup(name_off) {
            Ok(name) => name,
            Err(e) => {
                return Err(e);
            },
        };
        let links = attr.contains(FileAttr::FOLDER) && node.data != NO_FOLDER;
        let mut folder: Option<usize> = None;
        let mut payload: Vec<u8> = Vec::new();
        let ghost before = folders@;
        if links {
            if node.data as u64 >= dir_count as u64 {
                return Err(ArchiveError::CorruptArchive);
            }
            let target: usize = node.data as usize;
            folder = Some(target);
            if folders[target].node.hash == node.hash {
                folders[target].file = Some(j);
            }
        } else if attr.contains(FileAttr::FILE) {
            let from: u64 = payload_start + node.data as u64;
            let to: u64 = from + node.data_size as u64;
            if to > data.len() as u64 {
                return Err(ArchiveError::CorruptArchive);
            }
            payload = vstd::slice::slice_to_vec(slice_subrange(data, from as usize, to as usize));
        }
        let file = File { node, attr, folder, parent: None, name, name_off, data: payload };
        proof {
            assert(file.data@ =~= raw.data);
            assert(file@ == raw);
            assert(file_error(data@, fr, j as int) is None);
            assert forall|i: int| 0 <= i < dir_count implies (#[trigger] folders@[i])@ == (DirModel {
                file: self_file(data@, fr, i, j as int + 1),
                children: Seq::empty(),
                ..parsed_dir(data@, fr, i)
            }) by {
                if links && i == node.data as int {
                } else {
                    assert(folders@[i] == before[i]);
                }
            }
        }
        nodes.push(file);
        j += 1;
    }
    Ok(nodes)
}

/// Gives each directory its children, the entries of its range of the file
/// table, and each child its parent. Fails with `CorruptArchive` if a range
/// does not lie inside the file table.
pub(crate) fn link_children(
    data: Ghost<Seq<u8>>,
    folders: &mut Vec<Directory>,
    nodes: &mut Vec<File>,
    Ghost(fr): Ghost<Frame>,
) -> (res: Result<(), ArchiveError>)
    requires
        old(folders)@.len() == fr.dir_count(),
        old(nodes)@.len() == fr.file_count(),
        forall|j: int| 0 <= j < fr.file_count() ==> (#[trigger] old(nodes)@[j])@ == raw_file(data@, fr, j),
        forall|i: int|
            0 <= i < fr.dir_count() ==> (#[trigger] old(folders)@[i])@ == (DirModel {
                children: Seq::empty(),
                ..parsed_dir(data@, fr, i)
            }),
    ensures
        final(folders)@.len() == fr.dir_count(),
        final(nodes)@.len() == fr.file_count(),
        match res {
            Ok(()) => {
                &&& forall|i: int| 0 <= i < fr.dir_count() ==> #[trigger] range_ok(data@, fr, i)
                &&& forall|i: int|
                    0 <= i < fr.dir_count() ==> (#[trigger] final(folders)@[i])@ == parsed_dir(data@, fr, i)
                &&& forall|j: int|
                    0 <= j < fr.file_count() ==> (#[trigger] final(nodes)@[j])@ == (FileModel {
                        parent: parent_of(data@, fr, j, fr.dir_count()),
                        ..raw_file(data@, fr, j)
                    })
            },
            Err(e) => {
                &&& e == ArchiveError::CorruptArchive
                &&& exists|i: int| 0 <= i < fr.dir_count() && !#[trigger] range_ok(data@, fr, i)
            },
        },
{
    let dir_count = folders.len();
    let file_count = nodes.len();
    let mut i: usize = 0;
    while i < dir_count
        invariant
            i <= dir_count,
            dir_count == fr.dir_count(),
            file_count == fr.file_count(),
            folders@.len() == dir_count,
            nodes@.len() == file_count,
            forall|x: int| 0 <= x < i ==> #[trigger] range_ok(data@, fr, x),
            forall|x: int| 0 <= x < i ==> (#[trigger] folders@[x])@ == parsed_dir(data@, fr, x),
            forall|x: int|
                i <= x < dir_count ==> (#[trigger] folders@[x])@ == (DirModel {
                    children: Seq::empty(),
                    ..parsed_dir(data@, fr, x)
                }),
            forall|y: int|
                0 <= y < file_count ==> (#[trigger] nodes@[y])@ == (FileModel {
                    parent: parent_of(data@, fr, y, i as int),
                    ..raw_file(data@, fr, y)
                }),
        decreases dir_count - i,
    {
        let first: u64 = folders[i].node.file_off as u64;
        let count: u64 = folders[i].node.file_count as u64;
        assert(folders@[i as int]@.node == dir_node(data@, fr, i as int));
        if first + count > file_count as u64 {
            assert(!range_ok(data@, fr, i as int));
            return Err(ArchiveError::CorruptArchive);
        }
        let first: usize = first as usize;
        let count: usize = count as usize;
        let mut children: Vec<usize> = Vec::new();
        let mut k: usize = 0;
        while k < count
            invariant
                k <= count,
                i < dir_count,
                dir_count == fr.dir_count(),
                file_count == fr.file_count(),
                nodes@.len() == file_count,
                first + count <= file_count,
                first == dir_node(data@, fr, i as int).file_off,
                count == dir_node(data@, fr, i as int).file_count,
                children@.len() == k,
                forall|x: int| 0 <= x < k ==> #[trigger] children@[x] == first + x,
                forall|y: int|
                    0 <= y < file_count ==> (#[trigger] nodes@[y])@ == (FileModel {
                        parent: if first <= y < first + k {
                            Some(i)
                        } else {
                            parent_of(data@, fr, y, i as int)
                        },
                        ..raw_file(data@, fr, y)
                    }),
            decreases count - k,
        {
            let child = first + k;
            children.push(child);
            let ghost before = nodes@;
            nodes[child].parent = Some(i);
            proof {
                assert forall|y: int| 0 <= y < file_count implies (#[trigger] nodes@[y])@ == (FileModel {
                    parent: if first <= y < first + k + 1 {
                        Some(i)
                    } else {
                        parent_of(data@, fr, y, i as int)
                    },
                    ..raw_file(data@, fr, y)
                }) by {
                    if y != child as int {
                        assert(nodes@[y] == before[y]);
                    }
                }
            }
            k += 1;
        }
        let ghost before = folders@;
        folders[i].children = children;
        proof {
            assert(folders@[i as int]@.children =~= parsed_dir(data@, fr, i as int).children);
            assert forall|x: int| i + 1 <= x < dir_count implies (#[trigger] folders@[x])@ == (DirModel {
                children: Seq::empty(),
                ..parsed_dir(data@, fr, x)
            }) by {
                assert(folders@[x] == before[x]);
            }
            assert forall|x: int| 0 <= x < i + 1 implies (#[trigger] folders@[x])@ == parsed_dir(
                data@,
                fr,
                x,
            ) by {
                if x < i {
                    assert(folders@[x] == before[x]);
                }
            }
        }
        i += 1;
    }
    Ok(())
}

} // verus!
