//! Directories: a name, a short label, and a range of the file table.

use vstd::prelude::*;
use vstd::string::*;
use crate::bytes::{
    Endian, push_u16, push_u32, read_u16, read_u32, u16_at, u16_bytes, u32_at, u32_bytes,
};
use crate::error::ArchiveError;
use crate::hash::{hash_bytes, spec_name_hash};

verus! {

/// The fixed part of a directory, as its record holds it.
#[derive(Clone, Copy, Debug, PartialEq, Eq)]
pub struct Node {
    pub short_name: [u8; 4],
    pub name_off: u32,
    pub hash: u16,
    /// How many entries of the file table belong to the directory.
    pub file_count: u16,
    /// Where in the file table the directory's entries start.
    pub file_off: u32,
}

/// The length of a directory record.
pub const NODE_LEN: usize = 16;

/// The largest number of children that a directory record can hold.
pub const MAX_CHILDREN: usize = 0xFFFF;

/// A directory of an archive. `file` and the members of `children` are
/// positions in the archive's list of entries.
#[derive(Clone, Debug, PartialEq, Eq)]
pub struct Directory {
    pub node: Node,
    pub is_root: bool,
    pub name: String,
    /// The entry that stands for this directory in its parent.
    pub file: Option<usize>,
    /// The entries of the directory, in the order of the file table.
    pub children: Vec<usize>,
}

/// The fixed part of a directory, as plain values.
pub struct NodeModel {
    pub short_name: Seq<u8>,
    pub name_off: u32,
    pub hash: u16,
    pub file_count: u16,
    pub file_off: u32,
}

impl View for Node {
    type V = NodeModel;

    open spec fn view(&self) -> NodeModel {
        NodeModel {
            short_name: self.short_name@,
            name_off: self.name_off,
            hash: self.hash,
            file_count: self.file_count,
            file_off: self.file_off,
        }
    }
}

/// What a directory holds, as plain values.
pub struct DirModel {
    pub node: NodeModel,
    pub is_root: bool,
    pub name: Seq<char>,
    pub file: Option<usize>,
    pub children: Seq<usize>,
}

impl View for Directory {
    type V = DirModel;

    open spec fn view(&self) -> DirModel {
        DirModel {
            node: self.node@,
            is_root: self.is_root,
            name: self.name@,
            file: self.file,
            children: self.children@,
        }
    }
}

impl DirModel {
    /// The UTF-8 bytes of the name.
    pub open spec fn name_bytes(self) -> Seq<u8> {
        vstd::utf8::encode_utf8(self.name)
    }

    /// The 16 bytes of the record, provided that the number of children fits
    /// 16 bits.
    pub open spec fn record(self, endian: Endian) -> Seq<u8> {
        spec_short_name(self.is_root, self.name_bytes()) + u32_bytes(self.node.name_off, endian)
            + u16_bytes(spec_name_hash(self.name), endian) + u16_bytes(
            self.children.len() as u16,
            endian,
        ) + u32_bytes(self.node.file_off, endian)
    }
}

/// A new directory: the name, its label, and nothing else set.
pub open spec fn new_dir(name: Seq<char>, is_root: bool) -> DirModel {
    DirModel {
        node: NodeModel {
            short_name: spec_short_name(is_root, vstd::utf8::encode_utf8(name)),
            name_off: 0,
            hash: 0,
            file_count: 0,
            file_off: 0,
        },
        is_root,
        name,
        file: None,
        children: Seq::empty(),
    }
}

/// An ASCII letter in upper case; any other byte unchanged.
pub open spec fn spec_upper(b: u8) -> u8 {
    if 0x61 <= b <= 0x7A {
        (b - 0x20) as u8
    } else {
        b
    }
}

/// The byte at position `i` of a short name: the upper-cased byte of the
/// name, or a space behind its end.
pub open spec fn spec_short_byte(name: Seq<u8>, i: int) -> u8 {
    if i < name.len() {
        spec_upper(name[i])
    } else {
        0x20u8
    }
}

/// The four-byte label of a directory: `ROOT` for the root, else the first
/// four bytes of the name in upper case, padded with spaces.
pub open spec fn spec_short_name(is_root: bool, name: Seq<u8>) -> Seq<u8> {
    if is_root {
        seq![0x52u8, 0x4Fu8, 0x4Fu8, 0x54u8]
    } else {
        seq![
            spec_short_byte(name, 0),
            spec_short_byte(name, 1),
            spec_short_byte(name, 2),
            spec_short_byte(name, 3),
        ]
    }
}

fn short_byte(name: &[u8], i: usize) -> (b: u8)
    ensures
        b == spec_short_byte(name@, i as int),
{
    if i < name.len() {
        let c: u8 = name[i];
        if 0x61 <= c && c <= 0x7A {
            c - 0x20
        } else {
            c
        }
    } else {
        0x20
    }
}

/// The fixed part of the directory record that starts at `off`.
pub open spec fn spec_node(data: Seq<u8>, off: int, endian: Endian) -> NodeModel {
    NodeModel {
        short_name: data.subrange(off, off + 4),
        name_off: u32_at(data, off + 4, endian),
        hash: u16_at(data, off + 8, endian),
        file_count: u16_at(data, off + 10, endian),
        file_off: u32_at(data, off + 12, endian),
    }
}

/// Reads the directory record that starts at `off`.
pub fn read_node(data: &[u8], off: usize, endian: Endian) -> (node: Node)
    requires
        off + NODE_LEN <= data.len(),
    ensures
        node@ == spec_node(data@, off as int, endian),
{
    let node = Node {
        short_name: [data[off], data[off + 1], data[off + 2], data[off + 3]],
        name_off: read_u32(data, off + 4, endian),
        hash: read_u16(data, off + 8, endian),
        file_count: read_u16(data, off + 10, endian),
        file_off: read_u32(data, off + 12, endian),
    };
    assert(node.short_name@ =~= data@.subrange(off as int, off + 4));
    node
}

impl Directory {
    /// A directory with the given name and no children. Its label is set
    /// from the name.
    pub fn create(name: &str, is_root: bool) -> (dir: Directory)
        ensures
            dir@ == new_dir(name@, is_root),
    {
        let mut dir = Directory {
            node: Node { short_name: [0u8, 0u8, 0u8, 0u8], name_off: 0, hash: 0, file_count: 0, file_off: 0 },
            is_root,
            name: name.to_owned(),
            file: None,
            children: Vec::new(),
        };
        dir.node.short_name = dir.short_name();
        assert(dir.children@ =~= Seq::<usize>::empty());
        dir
    }

    /// The four-byte label of the directory.
    pub fn short_name(&self) -> (label: [u8; 4])
        ensures
            label@ == spec_short_name(self.is_root, self@.name_bytes()),
    {
        if self.is_root {
            let label = [0x52u8, 0x4Fu8, 0x4Fu8, 0x54u8];
            assert(label@ =~= spec_short_name(self.is_root, self@.name_bytes()));
            return label;
        }
        let bytes = self.name.as_str().as_bytes();
        let label = [
            short_byte(bytes, 0),
            short_byte(bytes, 1),
            short_byte(bytes, 2),
            short_byte(bytes, 3),
        ];
        assert(label@ =~= spec_short_name(self.is_root, self@.name_bytes()));
        label
    }

    /// Appends to `names` the name of the directory, and the names from the
    /// directory that lists it in `archive` up to the root.
    pub fn add_name(&self, archive: &crate::archive::Archive, names: &mut Vec<String>)
        ensures
            crate::paths::texts(final(names)@) == crate::paths::texts(old(names)@) + seq![self.name@]
                + archive@.names_above(self.file),
    {
        let ghost before = crate::paths::texts(names@);
        names.push(self.name.clone());
        assert(crate::paths::texts(names@) =~= before + seq![self.name@]);
        let mut climbed = false;
        match self.file {
            Some(f) => {
                if f < archive.node_count() {
                    match archive.node(f).parent {
                        Some(p) => {
                            if p < archive.folder_count() {
                                archive.add_names_from(p, names);
                                climbed = true;
                            }
                        },
                        None => {},
                    }
                }
            },
            None => {},
        }
        proof {
            if !climbed {
                assert(archive@.names_above(self.file) =~= Seq::<Seq<char>>::empty());
                assert(crate::paths::texts(names@) =~= before + seq![self.name@] + archive@.names_above(
                    self.file,
                ));
            }
        }
    }

    /// The path from the root of `archive` down to the directory, as one
    /// text, joined as the machine joins paths.
    pub fn to_string(&self, archive: &crate::archive::Archive) -> String {
        let mut names: Vec<String> = Vec::new();
        self.add_name(archive, &mut names);
        crate::paths::join_path(&crate::paths::reversed(&names))
    }

    /// Fills the fixed part of the directory from the first 16 bytes of `record`.
    pub fn read(&mut self, record: &[u8], endian: Endian) -> (res: Result<(), ArchiveError>)
        ensures
            res is Ok <==> record@.len() >= NODE_LEN,
            res is Err ==> res == Err::<(), ArchiveError>(ArchiveError::IoFailure) && *final(self)
                == *old(self),
            res is Ok ==> final(self)@ == (DirModel {
                node: spec_node(record@, 0, endian),
                ..old(self)@
            }),
    {
        if record.len() < NODE_LEN {
            return Err(ArchiveError::IoFailure);
        }
        self.node = read_node(record, 0, endian);
        Ok(())
    }

    /// Appends the 16 bytes of the record. The label and the hash are those
    /// of the name, the count is the number of children.
    pub fn write(&self, out: &mut Vec<u8>, endian: Endian) -> (res: Result<(), ArchiveError>)
        ensures
            res is Ok <==> self.children@.len() <= MAX_CHILDREN,
            res is Err ==> res == Err::<(), ArchiveError>(ArchiveError::TooLarge) && final(out)@
                == old(out)@,
            res is Ok ==> final(out)@ == old(out)@ + self@.record(endian),
    {
        if self.children.len() > MAX_CHILDREN {
            return Err(ArchiveError::TooLarge);
        }
        let label = self.short_name();
        out.push(label[0]);
        out.push(label[1]);
        out.push(label[2]);
        out.push(label[3]);
        assert(out@ =~= old(out)@ + spec_short_name(self.is_root, self@.name_bytes()));
        push_u32(out, self.node.name_off, endian);
        push_u16(out, hash_bytes(self.name.as_str().as_bytes()), endian);
        push_u16(out, self.children.len() as u16, endian);
        push_u32(out, self.node.file_off, endian);
        assert(out@ =~= old(out)@ + self@.record(endian));
        Ok(())
    }
}

} // verus!
