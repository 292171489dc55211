//! The bytes of an archive: where each part lies, and what it holds.

use vstd::prelude::*;
use crate::bytes::{align32, Endian, zeros};
use crate::enums::{JKRPreloadType, spec_preload_type};
use crate::header::{big_magic, DataHeader, Header, little_magic};
use crate::nodes::directory::MAX_CHILDREN;
use crate::nodes::file::{FileModel, NAME_OFF_LIMIT, Node};
use crate::roundtrip::clean_text;
use crate::table::table_bytes;
use crate::tree::Tree;

verus! {

/// Where the directory table starts.
pub const DIR_TABLE_OFF: u32 = 0x40;

/// The group of the payloads that are loaded to main RAM.
pub const MRAM: u8 = 1;

/// The group of the payloads that are loaded to auxiliary RAM.
pub const ARAM: u8 = 2;

/// The group of the payloads that are read from the disc: those of the
/// entries that name the disc, and of those that name no place at all.
pub const DVD: u8 = 3;

/// `bytes`, followed by zero bytes up to the next multiple of 32.
pub open spec fn padded(bytes: Seq<u8>) -> Seq<u8> {
    bytes + zeros(align32(bytes.len() as int) - bytes.len())
}

/// The magic that stands for a byte order.
pub open spec fn magic_bytes(endian: Endian) -> Seq<u8> {
    match endian {
        Endian::Big => big_magic(),
        Endian::Little => little_magic(),
    }
}

/// The group of payloads that an entry with these attributes belongs to:
/// none (zero) for a directory entry, which has no payload; for any other
/// entry the first of main RAM, auxiliary RAM and disc that its attributes
/// name. An entry that names none of them is loaded nowhere ahead of its
/// use, so its payload stands with those that are read from the disc.
pub open spec fn load_group(file: FileModel) -> u8 {
    if file.is_dir() {
        0
    } else {
        match spec_preload_type(file.attr) {
            JKRPreloadType::MRAM => MRAM,
            JKRPreloadType::ARAM => ARAM,
            JKRPreloadType::DVD => DVD,
            JKRPreloadType::NONE => DVD,
        }
    }
}

impl Tree {
    /// The test for an entry whose payload belongs to the group `g`.
    pub open spec fn in_group(self, g: u8) -> spec_fn(usize) -> bool {
        |e: usize| e < self.entries.len() && load_group(self.entries[e as int]) == g
    }

    /// The entries of the file table whose payload belongs to the group `g`,
    /// in the order of the table.
    pub open spec fn group(self, g: u8) -> Seq<usize> {
        self.table.filter(self.in_group(g))
    }

    /// The entries whose payload is written, in the order in which the
    /// payloads stand: main RAM, auxiliary RAM, disc.
    pub open spec fn payload_order(self) -> Seq<usize> {
        self.group(MRAM) + self.group(ARAM) + self.group(DVD)
    }

    /// The length that the payloads of `list` take, each padded to a
    /// multiple of 32.
    pub open spec fn span(self, list: Seq<usize>) -> int
        decreases list.len(),
    {
        if list.len() == 0 {
            0
        } else {
            self.span(list.drop_last()) + align32(self.entries[list.last() as int].data.len() as int)
        }
    }

    /// The payloads of `list`, each followed by zero bytes up to a multiple
    /// of 32.
    pub open spec fn payload_bytes(self, list: Seq<usize>) -> Seq<u8>
        decreases list.len(),
    {
        if list.len() == 0 {
            Seq::empty()
        } else {
            self.payload_bytes(list.drop_last()) + padded(self.entries[list.last() as int].data)
        }
    }

    /// The data field of the entry `e` once the first `upto` payloads of
    /// `list` are placed: where its payload starts, counted from the first
    /// payload, if it is among them, else what the field held.
    pub open spec fn placed_data(self, list: Seq<usize>, e: usize, upto: int) -> u32
        decreases upto,
    {
        if upto <= 0 || upto > list.len() {
            self.entries[e as int].node.data
        } else if list[upto - 1] == e {
            self.span(list.take(upto - 1)) as u32
        } else {
            self.placed_data(list, e, upto - 1)
        }
    }

    /// The archive in which every entry whose payload is written knows where
    /// the payload starts.
    pub open spec fn placed(self) -> Tree {
        let list = self.payload_order();
        Tree {
            entries: Seq::new(
                self.entries.len(),
                |e: int|
                    FileModel {
                        node: Node {
                            data: self.placed_data(list, e as usize, list.len() as int),
                            ..self.entries[e].node
                        },
                        ..self.entries[e]
                    },
            ),
            ..self
        }
    }

    /// The records of the first `n` directories.
    pub open spec fn dir_records(self, endian: Endian, n: int) -> Seq<u8>
        decreases n,
    {
        if n <= 0 {
            Seq::empty()
        } else {
            self.dir_records(endian, n - 1) + self.dirs[n - 1].record(endian)
        }
    }

    /// The records of the first `n` entries of the file table, each
    /// followed by four zero bytes.
    pub open spec fn file_records(self, endian: Endian, n: int) -> Seq<u8>
        decreases n,
    {
        if n <= 0 {
            Seq::empty()
        } else {
            self.file_records(endian, n - 1) + self.entries[self.table[n - 1] as int].record(endian)
                + zeros(4)
        }
    }

    /// The directory table as it stands in the archive.
    pub open spec fn dir_section(self, endian: Endian) -> Seq<u8> {
        padded(self.dir_records(endian, self.dirs.len() as int))
    }

    /// The file table as it stands in the archive.
    pub open spec fn file_section(self, endian: Endian) -> Seq<u8> {
        padded(self.file_records(endian, self.table.len() as int))
    }

    /// Where the file table starts: behind the directory table, which
    /// starts at 0x40 and takes 16 bytes for each directory, rounded up to a
    /// multiple of 32.
    pub open spec fn file_table_off(self) -> int {
        DIR_TABLE_OFF + align32(16 * self.dirs.len() as int)
    }

    /// Where the string table starts: behind the file table, which takes 20
    /// bytes for each entry, rounded up to a multiple of 32.
    pub open spec fn string_table_off(self) -> int {
        self.file_table_off() + align32(20 * self.table.len() as int)
    }

    /// Where the payloads start, behind a string table of `names`.
    pub open spec fn payload_off(self, names: Seq<(u32, Seq<char>)>) -> int {
        self.string_table_off() + table_bytes(names).len() as int
    }

    /// The length of the archive with the string table `names`.
    pub open spec fn image_len(self, names: Seq<(u32, Seq<char>)>) -> int {
        self.payload_off(names) + self.span(self.payload_order())
    }

    /// The header that is written.
    pub open spec fn image_header(self, names: Seq<(u32, Seq<char>)>) -> Header {
        Header {
            size: self.image_len(names) as u32,
            data_header_off: 0x20,
            file_data_off: (self.payload_off(names) - 0x20) as u32,
            file_data_len: self.span(self.payload_order()) as u32,
            mram_size: self.span(self.group(MRAM)) as u32,
            aram_size: self.span(self.group(ARAM)) as u32,
            dvd_size: self.span(self.group(DVD)) as u32,
        }
    }

    /// The data header that is written.
    pub open spec fn image_data_header(self, names: Seq<(u32, Seq<char>)>) -> DataHeader {
        DataHeader {
            dir_node_count: self.dirs.len() as u32,
            dir_node_off: 0x20,
            file_node_count: self.table.len() as u32,
            file_node_off: (self.file_table_off() - 0x20) as u32,
            string_tbl_size: table_bytes(names).len() as u32,
            string_tbl_off: (self.string_table_off() - 0x20) as u32,
            next_idx: self.next_id(),
            sync: self.sync(),
        }
    }

    /// The archive as bytes, with the string table `names`: the magic and
    /// the two headers, the directory table, the file table, the string
    /// table, and the payloads.
    pub open spec fn image(self, names: Seq<(u32, Seq<char>)>, endian: Endian) -> Seq<u8> {
        magic_bytes(endian) + self.image_header(names).bytes(endian) + self.image_data_header(
            names,
        ).bytes(endian) + self.dir_section(endian) + self.file_section(endian) + table_bytes(names)
            + self.payload_bytes(self.payload_order())
    }

    /// The archive as it is written: every entry knows where its name
    /// stands and where its payload starts.
    pub open spec fn written(self) -> Tree {
        self.named().placed()
    }

    /// The bytes that the archive is written to.
    #[verifier::opaque]
    pub open spec fn bytes(self, endian: Endian) -> Seq<u8> {
        self.written().image(self.names_table(), endian)
    }

    /// Whether every name that is written can be found again in the string
    /// table: the name of the root, if there is one, and the names of the
    /// entries of the walk are not empty and hold no zero byte.
    pub open spec fn names_sound(self) -> bool {
        &&& self.dirs.len() > 0 ==> clean_text(self.root_name())
        &&& forall|k: int|
            0 <= k < self.walk().len() ==> clean_text(self.entries[#[trigger] self.walk()[k] as int].name)
    }

    /// Whether the archive can be written: its names can be found again,
    /// they have room in the string table, the records fit the format, and
    /// the length of the whole fits 32 bits.
    pub open spec fn writable(self) -> bool {
        &&& self.names_sound()
        &&& self.names_have_room()
        &&& self.written().records_fit()
        &&& self.written().image_len(self.names_table()) <= u32::MAX
    }

    /// Whether the records of the archive fit the format: no directory has
    /// more children than 16 bits count, and the name of every entry of the
    /// file table starts within 24 bits.
    pub open spec fn records_fit(self) -> bool {
        &&& forall|d: int| 0 <= d < self.dirs.len() ==> (#[trigger] self.dirs[d]).children.len() <= MAX_CHILDREN
        &&& forall|k: int|
            0 <= k < self.table.len() ==> self.entries[#[trigger] self.table[k] as int].name_off
                < NAME_OFF_LIMIT
    }
}

} // verus!
