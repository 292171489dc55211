//! File entries: plain files, links to directories, and the two shortcuts
//! `.` and `..`.

use vstd::prelude::*;
use vstd::string::*;
use crate::bytes::{
    Endian, push_u16, push_u32, read_u16, read_u32, u16_at, u16_bytes, u32_at, u32_bytes,
};
use crate::error::ArchiveError;
use crate::hash::{hash_bytes, spec_name_hash};

verus! {

/// The attribute bits of a file entry.
#[derive(Clone, Copy, Debug, PartialEq, Eq, Structural)]
pub struct FileAttr(pub u8);

impl FileAttr {
    /// The entry is a file.
    pub const FILE: u8 = 0x01;

    /// The entry is a directory.
    pub const FOLDER: u8 = 0x02;

    /// The payload is compressed in some way.
    pub const COMPRESSED: u8 = 0x04;

    /// The payload is loaded to main RAM.
    pub const LOAD_TO_MRAM: u8 = 0x10;

    /// The payload is loaded to auxiliary RAM.
    pub const LOAD_TO_ARAM: u8 = 0x20;

    /// The payload is read from the disc when it is needed.
    pub const LOAD_FROM_DVD: u8 = 0x40;

    /// The payload is Yaz0 compressed.
    pub const USE_SZS: u8 = 0x80;

    /// A compressed file.
    pub const FILE_AND_COMPRESSION: u8 = 0x85;

    /// A file with every load target set.
    pub const FILE_AND_PRELOAD: u8 = 0x71;

    /// Whether every bit of `bits` is set.
    pub open spec fn spec_contains(&self, bits: u8) -> bool {
        self.0 & bits == bits
    }

    /// Whether every bit of `bits` is set.
    #[verifier::when_used_as_spec(spec_contains)]
    pub fn contains(&self, bits: u8) -> (r: bool)
        ensures
            r == self.spec_contains(bits),
    {
        self.0 & bits == bits
    }

    /// The attribute byte.
    pub fn bits(&self) -> (r: u8)
        ensures
            r == self.0,
    {
        self.0
    }
}

/// The fixed part of a file entry, as its record holds it.
#[derive(Clone, Copy, Debug, PartialEq, Eq, Structural)]
pub struct Node {
    pub id: u16,
    pub hash: u16,
    pub attr_and_off: u32,
    pub data: u32,
    pub data_size: u32,
}

/// The length of a file record without the four bytes that follow it.
pub const NODE_LEN: usize = 16;

/// The value that stands in the size field of a directory entry.
pub const FOLDER_SIZE: u32 = 0x10;

/// The data field of a directory entry that names no directory.
pub const NO_FOLDER: u32 = 0xFFFF_FFFF;

/// The number of values that the name offset of a file record can hold.
pub const NAME_OFF_LIMIT: u32 = 0x100_0000;

/// The name `.`, as bytes.
pub open spec fn dot() -> Seq<u8> {
    seq![0x2Eu8]
}

/// The name `..`, as bytes.
pub open spec fn dotdot() -> Seq<u8> {
    seq![0x2Eu8, 0x2Eu8]
}

/// Whether `name` is `.` or `..`.
pub open spec fn is_dot_name(name: Seq<u8>) -> bool {
    name == dot() || name == dotdot()
}

/// Whether the bytes are the name `.` or the name `..`.
pub fn dot_name(name: &[u8]) -> (r: bool)
    ensures
        r == is_dot_name(name@),
{
    if name.len() == 1 {
        let r = name[0] == 0x2E;
        assert(r == (name@ =~= dot()));
        r
    } else if name.len() == 2 {
        let r = name[0] == 0x2E && name[1] == 0x2E;
        assert(r == (name@ =~= dotdot()));
        r
    } else {
        false
    }
}

/// An entry of the file table. `folder` and `parent` are positions in the
/// archive's list of directories.
#[derive(Clone, Debug, PartialEq, Eq)]
pub struct File {
    pub node: Node,
    pub attr: FileAttr,
    /// The directory that this entry stands for, if it is a directory entry.
    pub folder: Option<usize>,
    /// The directory that lists this entry among its children.
    pub parent: Option<usize>,
    pub name: String,
    /// Where the name starts in the string table; 24 bits in a record.
    pub name_off: u32,
    /// The payload of a plain file.
    pub data: Vec<u8>,
}

/// What a file entry holds, as plain values.
pub struct FileModel {
    pub node: Node,
    pub attr: FileAttr,
    pub folder: Option<usize>,
    pub parent: Option<usize>,
    pub name: Seq<char>,
    pub name_off: u32,
    pub data: Seq<u8>,
}

impl View for File {
    type V = FileModel;

    open spec fn view(&self) -> FileModel {
        FileModel {
            node: self.node,
            attr: self.attr,
            folder: self.folder,
            parent: self.parent,
            name: self.name@,
            name_off: self.name_off,
            data: self.data@,
        }
    }
}

impl FileModel {
    /// The UTF-8 bytes of the name.
    pub open spec fn name_bytes(self) -> Seq<u8> {
        vstd::utf8::encode_utf8(self.name)
    }

    /// Whether the entry is a file.
    pub open spec fn is_file(self) -> bool {
        self.attr.spec_contains(FileAttr::FILE)
    }

    /// Whether the entry is a directory.
    pub open spec fn is_dir(self) -> bool {
        self.attr.spec_contains(FileAttr::FOLDER)
    }

    /// Whether the entry is a directory named `.` or `..`.
    pub open spec fn is_shortcut(self) -> bool {
        is_dot_name(self.name_bytes()) && self.is_dir()
    }

    /// A directory entry that is no shortcut: the link from a directory to
    /// one of its sub-directories.
    pub open spec fn is_sub_link(self) -> bool {
        self.is_dir() && !self.is_shortcut()
    }

    /// What the size field of the record holds: the payload's size for a
    /// file, a fixed constant for a directory entry.
    pub open spec fn size_field(self) -> u32 {
        if !self.is_file() && self.is_dir() {
            FOLDER_SIZE
        } else {
            self.node.data_size
        }
    }

    /// The attribute byte and the name offset, packed into one field.
    pub open spec fn packed_attr(self) -> u32 {
        (self.attr.0 as int * 0x100_0000 + self.name_off as int) as u32
    }

    /// The 16 bytes of the record, provided that the name offset fits 24 bits.
    pub open spec fn record(self, endian: Endian) -> Seq<u8> {
        u16_bytes(self.node.id, endian) + u16_bytes(spec_name_hash(self.name), endian)
            + u32_bytes(self.packed_attr(), endian) + u32_bytes(self.node.data, endian)
            + u32_bytes(self.size_field(), endian)
    }
}

impl File {
    /// Whether the entry is a file.
    pub fn is_file(&self) -> (r: bool)
        ensures
            r == self@.is_file(),
    {
        self.attr.contains(FileAttr::FILE)
    }

    /// Whether the entry is a directory.
    pub fn is_dir(&self) -> (r: bool)
        ensures
            r == self@.is_dir(),
    {
        self.attr.contains(FileAttr::FOLDER)
    }

    /// Whether the entry is a directory named `.` or `..`.
    pub fn is_shortcut(&self) -> (r: bool)
        ensures
            r == self@.is_shortcut(),
    {
        if dot_name(self.name.as_str().as_bytes()) {
            self.is_dir()
        } else {
            false
        }
    }

    /// The place to which the payload of the entry is loaded.
    pub fn preload_type(&self) -> (place: crate::enums::JKRPreloadType)
        ensures
            place == crate::enums::spec_preload_type(self.attr),
    {
        self.attr.preload_type()
    }

    /// The path from the root of `archive` down to the entry, as one text,
    /// joined as the machine joins paths.
    pub fn to_string(&self, archive: &crate::archive::Archive) -> String {
        let mut names: Vec<String> = Vec::new();
        names.push(self.name.clone());
        match self.parent {
            Some(p) => {
                if p < archive.folder_count() {
                    archive.add_names_from(p, &mut names);
                }
            },
            None => {},
        }
        crate::paths::join_path(&crate::paths::reversed(&names))
    }

    /// Fills the fixed part of the entry from the first 16 bytes of `record`,
    /// and takes the attribute byte and the name offset out of the packed field.
    pub fn read(&mut self, record: &[u8], endian: Endian) -> (res: Result<(), ArchiveError>)
        ensures
            res is Ok <==> record@.len() >= NODE_LEN,
            res is Err ==> res == Err::<(), ArchiveError>(ArchiveError::IoFailure) && *final(self)
                == *old(self),
            res is Ok ==> final(self)@ == (FileModel {
                node: spec_node(record@, 0, endian),
                name_off: (spec_node(record@, 0, endian).attr_and_off % 0x100_0000) as u32,
                attr: FileAttr((spec_node(record@, 0, endian).attr_and_off / 0x100_0000) as u8),
                ..old(self)@
            }),
    {
        if record.len() < NODE_LEN {
            return Err(ArchiveError::IoFailure);
        }
        let node = read_node(record, 0, endian);
        self.node = node;
        self.name_off = node.attr_and_off % NAME_OFF_LIMIT;
        self.attr = FileAttr((node.attr_and_off / NAME_OFF_LIMIT) as u8);
        Ok(())
    }

    /// Appends the 16 bytes of the record. The hash is that of the name; the
    /// payload is not written.
    pub fn write(&self, out: &mut Vec<u8>, endian: Endian) -> (res: Result<(), ArchiveError>)
        ensures
            res is Ok <==> self.name_off < NAME_OFF_LIMIT,
            res is Err ==> res == Err::<(), ArchiveError>(ArchiveError::TooLarge) && final(out)@
                == old(out)@,
            res is Ok ==> final(out)@ == old(out)@ + self@.record(endian),
    {
        if self.name_off >= NAME_OFF_LIMIT {
            return Err(ArchiveError::TooLarge);
        }
        push_u16(out, self.node.id, endian);
        push_u16(out, hash_bytes(self.name.as_str().as_bytes()), endian);
        let attr: u32 = self.attr.0 as u32;
        let total: u32 = attr * NAME_OFF_LIMIT + self.name_off;
        push_u32(out, total, endian);
        push_u32(out, self.node.data, endian);
        let size: u32 = if !self.is_file() && self.is_dir() {
            FOLDER_SIZE
        } else {
            self.node.data_size
        };
        push_u32(out, size, endian);
        assert(out@ =~= old(out)@ + self@.record(endian));
        Ok(())
    }

    /// An entry with the given name, attributes and links, and nothing else set.
    pub fn create(name: &str, attr: FileAttr, folder: Option<usize>, parent: Option<usize>) -> (file:
        File)
        ensures
            file@ == new_file(name@, attr, folder, parent),
    {
        let file = File {
            node: Node { id: 0, hash: 0, attr_and_off: 0, data: 0, data_size: 0 },
            attr,
            folder,
            parent,
            name: name.to_owned(),
            name_off: 0,
            data: Vec::new(),
        };
        assert(file.data@ =~= Seq::<u8>::empty());
        file
    }
}

/// A new entry: the name, the attributes and the links, and nothing else set.
pub open spec fn new_file(
    name: Seq<char>,
    attr: FileAttr,
    folder: Option<usize>,
    parent: Option<usize>,
) -> FileModel {
    FileModel {
        node: Node { id: 0, hash: 0, attr_and_off: 0, data: 0, data_size: 0 },
        attr,
        folder,
        parent,
        name,
        name_off: 0,
        data: Seq::empty(),
    }
}

/// The fixed part of the file record that starts at `off`.
pub open spec fn spec_node(data: Seq<u8>, off: int, endian: Endian) -> Node {
    Node {
        id: u16_at(data, off, endian),
        hash: u16_at(data, off + 2, endian),
        attr_and_off: u32_at(data, off + 4, endian),
        data: u32_at(data, off + 8, endian),
        data_size: u32_at(data, off + 12, endian),
    }
}

/// Reads the fixed part of the file record that starts at `off`.
pub fn read_node(data: &[u8], off: usize, endian: Endian) -> (node: Node)
    requires
        off + NODE_LEN <= data.len(),
    ensures
        node == spec_node(data@, off as int, endian),
{
    Node {
        id: read_u16(data, off, endian),
        hash: read_u16(data, off + 2, endian),
        attr_and_off: read_u32(data, off + 4, endian),
        data: read_u32(data, off + 8, endian),
        data_size: read_u32(data, off + 12, endian),
    }
}

} // verus!
