//! Reading is the inverse of writing: an archive whose file table is in
//! order is read back from its bytes with the names, the attributes, the
//! payloads and the children that it was written with.

use vstd::prelude::*;
use crate::bytes::{align32, Endian};
use crate::hash::spec_name_hash;
use crate::header::{big_magic, DataHeader, Header, little_magic, spec_endian, spec_read_headers};
use crate::image::{load_group, magic_bytes};
use crate::nodes::directory::{DirModel, NodeModel, spec_short_name};
use crate::nodes::file::{FileAttr, FileModel, NO_FOLDER, Node};
use crate::parse::{
    dir_node, file_error, file_node, files_error, Frame, in_range, names_of, names_start, parent_of, parse,
    parsed_dir, parsed_file, parsed_tree, range_ok, raw_file, tables_fit,
};
use crate::reach::{
    is_child, lemma_children_walked, lemma_contains_add, lemma_dirs_from_valid, lemma_links_listed,
    lemma_listed_expanded, lemma_listed_linked, lemma_walk_children,
};
use crate::roundtrip::{
    clean, clean_text, lemma_add_names_packed, lemma_base_table, lemma_data_header_read,
    lemma_dir_name_off, lemma_dir_name_off_base, lemma_dir_record_at, lemma_dir_record_read,
    lemma_file_record_at, lemma_file_record_read, lemma_header_read, lemma_lookup_at,
    lemma_name_off_lookup, lemma_packed_increasing, lemma_payload_at, lemma_scan_table,
    lemma_sub_sub, lemma_walk_name_found, links_to,
};
use crate::table::{increasing, lookup, packed, table_bytes};
use crate::tree::{dot_text, dotdot_text, Tree};
use crate::write::{
    lemma_dir_records_len, lemma_file_records_len, lemma_payload_len, lemma_placed_order,
    lemma_placed_span, lemma_span_add, lemma_span_nonneg,
};

verus! {

/// An entry is not a directory entry and a file at once. A directory
/// entry names its directory by position and has no payload. Any other
/// entry stands for no directory: if it is a file, its size is that of its
/// payload, and if it is no file, it has no payload.
pub open spec fn settled_entry(file: FileModel) -> bool {
    if file.is_dir() {
        &&& !file.is_file()
        &&& file.data.len() == 0
        &&& file.node.data == match file.folder {
            Some(f) => f as u32,
            None => NO_FOLDER,
        }
        &&& file.folder is Some ==> file.folder.unwrap() < NO_FOLDER
    } else {
        &&& file.folder is None
        &&& file.is_file() ==> file.node.data_size == file.data.len()
        &&& !file.is_file() ==> file.data.len() == 0
    }
}

impl Tree {
    /// The children of every directory are its range of the file table.
    pub open spec fn ranged(self) -> bool {
        forall|d: int|
            0 <= d < self.dirs.len() ==> {
                let dir = #[trigger] self.dirs[d];
                &&& dir.node.file_off + dir.children.len() <= self.table.len()
                &&& forall|k: int|
                    0 <= k < dir.children.len() ==> self.table[dir.node.file_off + k]
                        == #[trigger] dir.children[k]
            }
    }

    /// Whether the ranges of the directories `d` and `e` share no position
    /// of the file table: one ends where the other starts, or before.
    pub open spec fn apart(self, d: int, e: int) -> bool {
        let a = self.dirs[d];
        let b = self.dirs[e];
        a.node.file_off + a.children.len() <= b.node.file_off || b.node.file_off + b.children.len()
            <= a.node.file_off
    }

    /// The ranges of two directories share no position of the file table.
    pub open spec fn ranges_apart(self) -> bool {
        forall|d: int, e: int|
            0 <= d < self.dirs.len() && 0 <= e < self.dirs.len() && d != e ==> #[trigger] self.apart(d, e)
    }

    /// No entry of the file table is a directory entry and a file at once.
    /// A directory entry names its directory by position and has no
    /// payload; the size of a file is that of its payload; an entry that is
    /// neither has no payload.
    pub open spec fn settled(self) -> bool {
        forall|j: int|
            0 <= j < self.table.len() ==> settled_entry(self.entries[#[trigger] self.table[j] as int])
    }

    /// There is a root, and its name and the names of the entries of the
    /// walk are not empty and hold no zero byte.
    pub open spec fn well_named(self) -> bool {
        &&& self.dirs.len() > 0
        &&& clean_text(self.root_name())
        &&& forall|k: int|
            0 <= k < self.walk().len() ==> clean_text(self.entries[#[trigger] self.walk()[k] as int].name)
    }

    /// The walk meets every entry of the file table. Each of its links
    /// bears the name of the directory to which it leads; none leads to the
    /// root, and one to every other directory.
    pub open spec fn covered(self) -> bool {
        &&& forall|j: int| 0 <= j < self.table.len() ==> self.walk().contains(#[trigger] self.table[j])
        &&& forall|k: int, f: usize|
            0 <= k < self.walk().len() && #[trigger] links_to(self, self.walk()[k], f) ==> f != 0
                && f < self.dirs.len() && self.entries[self.walk()[k] as int].name
                == self.dirs[f as int].name
        &&& forall|d: usize| 1 <= d < self.dirs.len() ==> #[trigger] self.has_link(d)
    }

    /// Whether a link of the walk leads to the directory `d`.
    pub open spec fn has_link(self, d: usize) -> bool {
        exists|k: int| 0 <= k < self.walk().len() && links_to(self, #[trigger] self.walk()[k], d)
    }

    /// The byte order, the headers and the string table with which the
    /// archive is written.
    pub open spec fn frame(self, endian: Endian) -> Frame {
        Frame {
            endian,
            header: self.written().image_header(self.names_table()),
            data_header: self.written().image_data_header(self.names_table()),
            names: self.names_table(),
        }
    }
}

/// The bytes of a header are 28.
pub proof fn lemma_header_len(h: Header, endian: Endian)
    ensures
        h.bytes(endian).len() == 28,
{
}

/// The bytes of a data header are 32.
pub proof fn lemma_data_header_len(d: DataHeader, endian: Endian)
    ensures
        d.bytes(endian).len() == 32,
{
}

/// The lengths of the tables and of the payloads of the written archive.
pub proof fn lemma_section_lengths(u: Tree, endian: Endian)
    ensures
        u.dir_section(endian).len() == align32(16 * u.dirs.len() as int),
        u.file_section(endian).len() == align32(20 * u.table.len() as int),
        u.payload_bytes(u.payload_order()).len() == u.span(u.payload_order()),
        u.span(u.payload_order()) >= 0,
{
    lemma_dir_records_len(u, endian, u.dirs.len() as int);
    lemma_file_records_len(u, endian, u.table.len() as int);
    lemma_payload_len(u, u.payload_order());
    lemma_span_nonneg(u, u.payload_order());
}

/// The lengths of the parts of the written archive.
pub proof fn lemma_part_lengths(u: Tree, names: Seq<(u32, Seq<char>)>, endian: Endian)
    ensures
        u.dir_section(endian).len() == align32(16 * u.dirs.len() as int),
        u.file_section(endian).len() == align32(20 * u.table.len() as int),
        u.payload_bytes(u.payload_order()).len() == u.span(u.payload_order()),
        u.span(u.payload_order()) >= 0,
        u.image_header(names).bytes(endian).len() == 28,
        u.image_data_header(names).bytes(endian).len() == 32,
        magic_bytes(endian).len() == 4,
        u.image(names, endian).len() == u.image_len(names),
{
    lemma_section_lengths(u, endian);
    lemma_header_len(u.image_header(names), endian);
    lemma_data_header_len(u.image_data_header(names), endian);
}

/// Where the parts of the written archive stand in its bytes.
pub proof fn lemma_image_parts(u: Tree, names: Seq<(u32, Seq<char>)>, endian: Endian)
    ensures
        ({
            let image = u.image(names, endian);
            let n = u.dirs.len() as int;
            let m = u.table.len() as int;
            &&& image.len() == u.image_len(names)
            &&& 0x40 + 16 * n <= u.file_table_off()
            &&& u.file_table_off() + 20 * m <= u.string_table_off()
            &&& u.string_table_off() <= u.payload_off(names) <= u.image_len(names)
            &&& image.subrange(0, 4) == magic_bytes(endian)
            &&& image.subrange(4, 32) == u.image_header(names).bytes(endian)
            &&& image.subrange(32, 64) == u.image_data_header(names).bytes(endian)
            &&& image.subrange(0x40, 0x40 + 16 * n) == u.dir_records(endian, n)
            &&& image.subrange(u.file_table_off(), u.file_table_off() + 20 * m) == u.file_records(endian, m)
            &&& image.subrange(u.string_table_off(), u.payload_off(names)) == table_bytes(names)
            &&& image.subrange(u.payload_off(names), u.image_len(names)) == u.payload_bytes(
                u.payload_order(),
            )
        }),
{
    lemma_part_lengths(u, names, endian);
    let image = u.image(names, endian);
    let n = u.dirs.len() as int;
    let m = u.table.len() as int;
    lemma_dir_records_len(u, endian, n);
    lemma_file_records_len(u, endian, m);
    let head = magic_bytes(endian) + u.image_header(names).bytes(endian) + u.image_data_header(
        names,
    ).bytes(endian);
    assert(head.len() == 64);
    let dirs = u.dir_section(endian);
    let files = u.file_section(endian);
    let strings = table_bytes(names);
    let payload = u.payload_bytes(u.payload_order());
    assert(image == head + dirs + files + strings + payload);
    assert(image.subrange(0, 4) =~= magic_bytes(endian));
    assert(image.subrange(4, 32) =~= u.image_header(names).bytes(endian));
    assert(image.subrange(32, 64) =~= u.image_data_header(names).bytes(endian));
    assert(image.subrange(0x40, 0x40 + 16 * n) =~= u.dir_records(endian, n));
    assert(image.subrange(u.file_table_off(), u.file_table_off() + 20 * m) =~= u.file_records(endian, m));
    assert(image.subrange(u.string_table_off(), u.payload_off(names)) =~= strings);
    assert(image.subrange(u.payload_off(names), u.image_len(names)) =~= payload);
}

/// Where the parts of the archive stand in the bytes that are written, and
/// the numbers of the written headers.
pub proof fn lemma_bytes_parts(t: Tree, endian: Endian)
    requires
        t.written().image_len(t.names_table()) <= u32::MAX,
    ensures
        ({
            let u = t.written();
            let names = t.names_table();
            let fr = t.frame(endian);
            let image = t.bytes(endian);
            let n = t.dirs.len() as int;
            let m = t.table.len() as int;
            &&& u.dirs.len() == n
            &&& u.table == t.table
            &&& image.len() == u.image_len(names)
            &&& 0x40 + 16 * n <= u.file_table_off()
            &&& u.file_table_off() + 20 * m <= u.string_table_off()
            &&& u.string_table_off() <= u.payload_off(names) <= u.image_len(names)
            &&& u.image_len(names) == u.payload_off(names) + u.span(u.payload_order())
            &&& image.subrange(0, 4) == magic_bytes(endian)
            &&& image.subrange(4, 32) == fr.header.bytes(endian)
            &&& image.subrange(32, 64) == fr.data_header.bytes(endian)
            &&& image.subrange(0x40, 0x40 + 16 * n) == u.dir_records(endian, n)
            &&& image.subrange(u.file_table_off(), u.file_table_off() + 20 * m) == u.file_records(endian, m)
            &&& image.subrange(u.string_table_off(), u.payload_off(names)) == table_bytes(names)
            &&& image.subrange(u.payload_off(names), u.image_len(names)) == u.payload_bytes(
                u.payload_order(),
            )
            &&& fr.base() == 0x20
            &&& fr.dir_start() == 0x40
            &&& fr.file_start() == u.file_table_off()
            &&& fr.payload_start() == u.payload_off(names)
            &&& names_start(fr.header, fr.data_header) == u.string_table_off()
            &&& fr.data_header.string_tbl_size == table_bytes(names).len()
            &&& fr.dir_count() == n
            &&& fr.file_count() == m
        }),
{
    reveal(Tree::bytes);
    let u = t.written();
    let names = t.names_table();
    lemma_image_parts(u, names, endian);
    lemma_section_lengths(u, endian);
    lemma_frame_numbers(u, names);
}

/// The string table of a well-named archive with room for its names is
/// packed, its texts are clean, it starts with `.` and `..`, and it holds
/// the name of the root at the root's name offset.
pub proof fn lemma_names_table(t: Tree)
    requires
        t.well_named(),
        t.names_have_room(),
    ensures
        packed(t.names_table()),
        clean(t.names_table()),
        increasing(t.names_table()),
        t.names_table().len() >= 2,
        t.names_table()[0] == (0u32, dot_text()),
        t.names_table()[1] == (2u32, dotdot_text()),
        lookup(t.names_table(), t.root_off()) == Some(t.root_name()),
{
    lemma_base_table(t);
    lemma_add_names_packed(t, t.base_table(), t.walk());
    lemma_packed_increasing(t.names_table());
    crate::laws::lemma_add_names_prefix(t, t.base_table(), t.walk());
    let table = t.names_table();
    let base = t.base_table();
    assert(table.take(base.len() as int)[0] == base[0]);
    assert(table.take(base.len() as int)[1] == base[1]);
    if t.root_name() == dot_text() {
        lemma_lookup_at(table, 0, 0);
    } else if t.root_name() == dotdot_text() {
        lemma_lookup_at(table, 1, 0);
    } else {
        assert(table.take(3)[2] == base[2]);
        lemma_lookup_at(table, 2, 0);
    }
}

/// The numbers of the written headers are those of the layout: none is cut
/// short by its field.
pub proof fn lemma_frame_numbers(u: Tree, names: Seq<(u32, Seq<char>)>)
    requires
        u.image_len(names) <= u32::MAX,
        u.span(u.payload_order()) >= 0,
    ensures
        ({
            let h = u.image_header(names);
            let d = u.image_data_header(names);
            &&& h.size == u.image_len(names)
            &&& h.data_header_off == 0x20
            &&& h.file_data_off == u.payload_off(names) - 0x20
            &&& d.dir_node_count == u.dirs.len()
            &&& d.dir_node_off == 0x20
            &&& d.file_node_count == u.table.len()
            &&& d.file_node_off == u.file_table_off() - 0x20
            &&& d.string_tbl_size == table_bytes(names).len()
            &&& d.string_tbl_off == u.string_table_off() - 0x20
            &&& 0x40 + 16 * u.dirs.len() <= u.file_table_off()
            &&& u.file_table_off() + 20 * u.table.len() <= u.string_table_off()
        }),
{
}

/// The byte order is read from the magic of the written bytes.
pub proof fn lemma_endian_read(image: Seq<u8>, endian: Endian, native: Endian)
    requires
        image.len() >= 4,
        image.subrange(0, 4) == magic_bytes(endian),
    ensures
        spec_endian(image, native) == endian,
{
    assert(big_magic()[0] != little_magic()[0]);
}

/// The headers and the string table are read from the written bytes as
/// they were written, and the three tables lie inside the bytes.
pub proof fn lemma_frame_read(t: Tree, endian: Endian, native: Endian)
    requires
        t.well_named(),
        t.writable(),
    ensures
        ({
            let fr = t.frame(endian);
            let image = t.bytes(endian);
            &&& spec_read_headers(image, native) == Ok::<(Endian, Header, DataHeader), crate::error::ArchiveError>(
                (endian, fr.header, fr.data_header),
            )
            &&& tables_fit(fr.header, fr.data_header, image.len() as int)
            &&& names_of(image, fr.header, fr.data_header) == fr.names
        }),
{
    let names = t.names_table();
    let fr = t.frame(endian);
    let image = t.bytes(endian);
    lemma_bytes_parts(t, endian);
    lemma_endian_read(image, endian, native);
    lemma_header_read(image, fr.header, endian);
    lemma_data_header_read(image, 0x20, fr.data_header, endian);
    assert(fr.header.data_header_off == 0x20);
    assert(spec_read_headers(image, native) == Ok::<(Endian, Header, DataHeader), crate::error::ArchiveError>(
        (endian, fr.header, fr.data_header),
    ));
    assert(names_of(image, fr.header, fr.data_header) == fr.names) by {
        lemma_names_table(t);
        lemma_scan_table(names);
    }
}

/// A directory of the written archive: what it was, with the name offset
/// that the string table gave it.
pub proof fn lemma_written_dir(t: Tree, d: int)
    requires
        0 <= d < t.dirs.len(),
        t.dirs.len() <= usize::MAX,
    ensures
        t.written().dirs.len() == t.dirs.len(),
        t.written().table == t.table,
        t.written().data_header == t.data_header,
        t.written().dirs[d] == (DirModel {
            node: NodeModel {
                name_off: t.dir_name_off(t.names_table(), t.walk(), d as usize, t.walk().len() as int),
                ..t.dirs[d].node
            },
            ..t.dirs[d]
        }),
{
}

/// An entry of the archive before its payload is placed: what it was,
/// with the name offset that the string table gave it if the walk meets it.
pub proof fn lemma_named_entry(t: Tree, e: int)
    requires
        0 <= e < t.entries.len(),
        t.entries.len() <= usize::MAX,
    ensures
        t.named().entries.len() == t.entries.len(),
        t.named().table == t.table,
        t.named().entries[e] == (FileModel {
            name_off: if t.walk().contains(e as usize) {
                t.name_off_in(t.names_table(), e as usize)
            } else {
                t.entries[e].name_off
            },
            ..t.entries[e]
        }),
{
}

/// An entry of the written archive: the entry before its payload was
/// placed, with the place of the payload in its data field.
pub proof fn lemma_placed_entry(n: Tree, e: int)
    requires
        0 <= e < n.entries.len(),
        n.entries.len() <= usize::MAX,
    ensures
        n.placed().entries.len() == n.entries.len(),
        n.placed().entries[e] == (FileModel {
            node: Node {
                data: n.placed_data(n.payload_order(), e as usize, n.payload_order().len() as int),
                ..n.entries[e].node
            },
            ..n.entries[e]
        }),
{
}

/// The data field of an entry that is among the payloads that were placed
/// is where one of its payloads starts.
pub proof fn lemma_placed_data_found(n: Tree, list: Seq<usize>, e: usize, upto: int)
    requires
        0 <= upto <= list.len(),
        exists|k: int| 0 <= k < upto && #[trigger] list[k] == e,
    ensures
        exists|k: int|
            0 <= k < upto && #[trigger] list[k] == e && n.placed_data(list, e, upto) == n.span(list.take(k))
                as u32,
    decreases upto,
{
    if list[upto - 1] == e {
        assert(n.placed_data(list, e, upto) == n.span(list.take(upto - 1)) as u32);
    } else {
        let k0 = choose|k: int| 0 <= k < upto && #[trigger] list[k] == e;
        assert(k0 < upto - 1);
        lemma_placed_data_found(n, list, e, upto - 1);
        let k = choose|k: int|
            0 <= k < upto - 1 && #[trigger] list[k] == e && n.placed_data(list, e, upto - 1) == n.span(
                list.take(k),
            ) as u32;
        assert(0 <= k < upto && list[k] == e);
    }
}

/// The data field of an entry that is not among the payloads that were
/// placed is what it was.
pub proof fn lemma_placed_data_kept(n: Tree, list: Seq<usize>, e: usize, upto: int)
    requires
        0 <= upto <= list.len(),
        forall|k: int| 0 <= k < upto ==> #[trigger] list[k] != e,
    ensures
        n.placed_data(list, e, upto) == n.entries[e as int].node.data,
    decreases upto,
{
    if upto > 0 {
        assert(list[upto - 1] != e);
        lemma_placed_data_kept(n, list, e, upto - 1);
    }
}

/// The name that the string table holds at the name offset of a written
/// directory is the name of the directory.
pub proof fn lemma_dir_name_read(t: Tree, d: usize)
    requires
        t.well_named(),
        t.names_have_room(),
        t.covered(),
        d < t.dirs.len(),
    ensures
        lookup(
            t.names_table(),
            t.dir_name_off(t.names_table(), t.walk(), d, t.walk().len() as int),
        ) == Some(t.dirs[d as int].name),
{
    let names = t.names_table();
    let walk = t.walk();
    lemma_names_table(t);
    if d == 0 {
        assert forall|k: int| 0 <= k < walk.len() implies !links_to(t, #[trigger] walk[k], d) by {
            if links_to(t, walk[k], d) {
                assert(d != 0);
            }
        }
        lemma_dir_name_off_base(t, names, walk, d, walk.len() as int);
    } else {
        assert(t.has_link(d));
        lemma_dir_name_off(t, names, walk, d, walk.len() as int);
        let k = choose|k: int|
            0 <= k < walk.len() && links_to(t, #[trigger] walk[k], d) && t.dir_name_off(
                names,
                walk,
                d,
                walk.len() as int,
            ) == t.name_off_in(names, walk[k]);
        lemma_walk_name_found(t, t.base_table(), walk, k);
        lemma_name_off_lookup(t, names, walk[k]);
        assert(t.entries[walk[k] as int].name == t.dirs[d as int].name);
    }
}

/// The record of a written directory stands in the written bytes at 0x40
/// and 16 times its position.
pub proof fn lemma_dir_record_in_bytes(t: Tree, endian: Endian, d: int)
    requires
        t.written().image_len(t.names_table()) <= u32::MAX,
        0 <= d < t.dirs.len(),
    ensures
        0x40 + 16 * d + 16 <= t.bytes(endian).len(),
        t.bytes(endian).subrange(0x40 + 16 * d, 0x40 + 16 * d + 16) == t.written().dirs[d].record(endian),
{
    let u = t.written();
    let image = t.bytes(endian);
    let n = t.dirs.len() as int;
    lemma_bytes_parts(t, endian);
    lemma_dir_record_at(u, endian, n, d);
    lemma_sub_sub(image, 0x40, 16 * n, 16 * d, 16 * d + 16);
}

/// The record of a written directory is read from the place in the written
/// bytes where it stands.
pub proof fn lemma_dir_node_read(t: Tree, endian: Endian, d: int)
    requires
        t.written().image_len(t.names_table()) <= u32::MAX,
        0 <= d < t.dirs.len(),
        t.dirs.len() <= usize::MAX,
        t.dirs[d].children.len() <= 0xFFFF,
    ensures
        ({
            let node = dir_node(t.bytes(endian), t.frame(endian), d);
            &&& node.name_off == t.dir_name_off(t.names_table(), t.walk(), d as usize, t.walk().len() as int)
            &&& node.hash == spec_name_hash(t.dirs[d].name)
            &&& node.short_name == spec_short_name(t.dirs[d].is_root, t.dirs[d].name_bytes())
            &&& node.file_count == t.dirs[d].children.len()
            &&& node.file_off == t.dirs[d].node.file_off
        }),
{
    let u = t.written();
    let fr = t.frame(endian);
    let image = t.bytes(endian);
    lemma_dir_record_in_bytes(t, endian, d);
    lemma_written_dir(t, d);
    assert(fr.endian == endian);
    assert(fr.dir_start() == 0x40) by {
        lemma_section_lengths(u, endian);
        lemma_frame_numbers(u, t.names_table());
    }
    lemma_dir_record_read(image, 0x40 + 16 * d, u.dirs[d], endian);
}

/// The record of a written directory is read from the written bytes: its
/// fixed part, its name, and a range that lies inside the file table.
pub proof fn lemma_dir_read(t: Tree, endian: Endian, d: int)
    requires
        t.well_named(),
        t.writable(),
        t.covered(),
        t.ranged(),
        t.dirs.len() <= usize::MAX,
        0 <= d < t.dirs.len(),
    ensures
        ({
            let fr = t.frame(endian);
            let image = t.bytes(endian);
            let node = dir_node(image, fr, d);
            &&& node.name_off == t.dir_name_off(t.names_table(), t.walk(), d as usize, t.walk().len() as int)
            &&& node.hash == spec_name_hash(t.dirs[d].name)
            &&& node.short_name == spec_short_name(t.dirs[d].is_root, t.dirs[d].name_bytes())
            &&& node.file_count == t.dirs[d].children.len()
            &&& node.file_off == t.dirs[d].node.file_off
            &&& lookup(fr.names, node.name_off) == Some(t.dirs[d].name)
            &&& range_ok(image, fr, d)
        }),
{
    assert(t.dirs[d].children.len() <= 0xFFFF) by {
        lemma_written_dir(t, d);
        assert(t.written().dirs[d].children.len() <= 0xFFFF);
    }
    lemma_dir_node_read(t, endian, d);
    lemma_dir_name_read(t, d as usize);
    assert(t.dirs[d].node.file_off + t.dirs[d].children.len() <= t.table.len());
    assert(t.frame(endian).file_count() == t.table.len()) by {
        lemma_section_lengths(t.written(), endian);
        lemma_frame_numbers(t.written(), t.names_table());
        lemma_written_dir(t, d);
    }
}

/// The name that the string table holds at the name offset of a written
/// entry of the file table is the name of the entry.
pub proof fn lemma_file_name_read(t: Tree, j: int)
    requires
        t.well_named(),
        t.names_have_room(),
        t.covered(),
        t.linked(),
        t.entries.len() <= usize::MAX,
        0 <= j < t.table.len(),
    ensures
        t.table[j] < t.entries.len(),
        t.named().entries[t.table[j] as int].name_off == t.name_off_in(t.names_table(), t.table[j]),
        lookup(t.names_table(), t.name_off_in(t.names_table(), t.table[j])) == Some(
            t.entries[t.table[j] as int].name,
        ),
{
    let c = t.table[j];
    let walk = t.walk();
    lemma_names_table(t);
    assert(walk.contains(c));
    let k = walk.index_of(c);
    lemma_named_entry(t, c as int);
    if !crate::nodes::file::is_dot_name(t.entries[c as int].name_bytes()) {
        lemma_walk_name_found(t, t.base_table(), walk, k);
    }
    lemma_name_off_lookup(t, t.names_table(), c);
}

/// An entry of the file table that is no directory entry is among the
/// entries whose payload is written.
pub proof fn lemma_in_payload_order(n: Tree, j: int)
    requires
        0 <= j < n.table.len(),
        n.table[j] < n.entries.len(),
        !n.entries[n.table[j] as int].is_dir(),
    ensures
        n.payload_order().contains(n.table[j]),
{
    let c = n.table[j];
    let g = load_group(n.entries[c as int]);
    let m1 = n.group(crate::image::MRAM);
    let m2 = n.group(crate::image::ARAM);
    let list = n.payload_order();
    assert(n.in_group(g)(c));
    n.table.lemma_filter_contains(n.in_group(g), j);
    let q = n.group(g).index_of(c);
    if g == crate::image::MRAM {
        assert(list[q] == c);
    } else if g == crate::image::ARAM {
        assert(list[m1.len() + q] == c);
    } else {
        assert(list[m1.len() + m2.len() + q] == c);
    }
}

/// Every entry whose payload is written exists.
pub proof fn lemma_payload_order_valid(n: Tree)
    ensures
        forall|k: int| 0 <= k < n.payload_order().len() ==> #[trigger] n.payload_order()[k] < n.entries.len(),
{
    let m1 = n.group(crate::image::MRAM);
    let m2 = n.group(crate::image::ARAM);
    let m3 = n.group(crate::image::DVD);
    assert forall|k: int| 0 <= k < n.payload_order().len() implies #[trigger] n.payload_order()[k]
        < n.entries.len() by {
        if k < m1.len() {
            n.table.lemma_filter_pred(n.in_group(crate::image::MRAM), k);
        } else if k < m1.len() + m2.len() {
            n.table.lemma_filter_pred(n.in_group(crate::image::ARAM), k - m1.len());
        } else {
            n.table.lemma_filter_pred(n.in_group(crate::image::DVD), k - m1.len() - m2.len());
        }
    }
}

/// The payload of an entry that is among those written stands in the
/// written payloads where the data field of the entry says, provided that
/// the payloads are no longer than 32 bits count.
pub proof fn lemma_placed_at(n: Tree, c: usize)
    requires
        c < n.entries.len(),
        n.entries.len() <= usize::MAX,
        n.payload_order().contains(c),
        n.span(n.payload_order()) <= u32::MAX,
    ensures
        ({
            let u = n.placed();
            let at = u.entries[c as int].node.data as int;
            let data = n.entries[c as int].data;
            let all = u.payload_bytes(u.payload_order());
            &&& u.payload_order() == n.payload_order()
            &&& all.len() == n.span(n.payload_order())
            &&& at + data.len() <= all.len()
            &&& all.subrange(at, at + data.len()) == data
        }),
{
    let u = n.placed();
    let list = n.payload_order();
    lemma_placed_entry(n, c as int);
    lemma_placed_order(n);
    lemma_payload_order_valid(n);
    let k0 = list.index_of(c);
    assert(list[k0] == c);
    lemma_placed_data_found(n, list, c, list.len() as int);
    let k = choose|k: int|
        0 <= k < list.len() && #[trigger] list[k] == c && n.placed_data(list, c, list.len() as int) == n.span(
            list.take(k),
        ) as u32;
    assert forall|x: int| 0 <= x < list.take(k).len() implies #[trigger] list.take(k)[x] < n.entries.len() by {
        assert(list.take(k)[x] == list[x]);
    }
    lemma_placed_span(n, list.take(k));
    lemma_placed_span(n, list);
    lemma_payload_at(u, list, k);
    assert(list =~= list.take(k) + list.skip(k));
    lemma_span_add(n, list.take(k), list.skip(k));
}

/// Where the payload of a written file stands: its data field counts from
/// the first payload, and its payload stands there in the written bytes.
pub proof fn lemma_payload_read(t: Tree, endian: Endian, j: int)
    requires
        t.writable(),
        t.linked(),
        t.entries.len() <= usize::MAX,
        0 <= j < t.table.len(),
        !t.entries[t.table[j] as int].is_dir(),
    ensures
        ({
            let u = t.written();
            let image = t.bytes(endian);
            let c = t.table[j] as int;
            let start = u.payload_off(t.names_table()) + u.entries[c].node.data;
            &&& start + t.entries[c].data.len() <= image.len()
            &&& image.subrange(start, start + t.entries[c].data.len()) == t.entries[c].data
        }),
{
    let n = t.named();
    let u = t.written();
    let names = t.names_table();
    let image = t.bytes(endian);
    let c = t.table[j];
    lemma_named_entry(t, c as int);
    lemma_in_payload_order(n, j);
    lemma_placed_order(n);
    lemma_bytes_parts(t, endian);
    lemma_payload_order_valid(n);
    lemma_placed_span(n, n.payload_order());
    lemma_placed_at(n, c);
    let at = u.entries[c as int].node.data as int;
    lemma_sub_sub(
        image,
        u.payload_off(names),
        u.span(u.payload_order()),
        at,
        at + t.entries[c as int].data.len(),
    );
}

/// The record of a written entry of the file table is read from the place
/// in the written bytes where it stands.
pub proof fn lemma_file_node_read(t: Tree, endian: Endian, j: int)
    requires
        t.written().image_len(t.names_table()) <= u32::MAX,
        0 <= j < t.table.len(),
        t.written().entries[t.table[j] as int].name_off < 0x100_0000,
    ensures
        ({
            let u = t.written();
            let file = u.entries[t.table[j] as int];
            let node = file_node(t.bytes(endian), t.frame(endian), j);
            &&& node.id == file.node.id
            &&& node.hash == spec_name_hash(file.name)
            &&& node.attr_and_off % 0x100_0000 == file.name_off
            &&& node.attr_and_off / 0x100_0000 == file.attr.0
            &&& node.data == file.node.data
            &&& node.data_size == file.size_field()
        }),
{
    let u = t.written();
    let image = t.bytes(endian);
    let fr = t.frame(endian);
    let m = t.table.len() as int;
    let start = u.file_table_off();
    let file = u.entries[t.table[j] as int];
    assert(image.subrange(start + 20 * j, start + 20 * j + 16) == file.record(endian) && start + 20 * m
        <= image.len() && fr.file_start() == start && start >= 0) by {
        lemma_bytes_parts(t, endian);
        lemma_file_record_at(u, endian, m, j);
        lemma_sub_sub(image, start, 20 * m, 20 * j, 20 * j + 16);
    }
    assert(fr.endian == endian);
    lemma_file_record_read(image, start + 20 * j, file, endian);
}

/// The data field of a written directory entry is what it was.
pub proof fn lemma_dir_entry_kept(t: Tree, c: usize)
    requires
        c < t.entries.len(),
        t.entries.len() <= usize::MAX,
        t.entries[c as int].is_dir(),
    ensures
        t.written().entries[c as int].node.data == t.entries[c as int].node.data,
        t.written().entries[c as int].data == t.entries[c as int].data,
        t.written().entries[c as int].attr == t.entries[c as int].attr,
{
    let n = t.named();
    lemma_named_entry(t, c as int);
    lemma_placed_entry(n, c as int);
    assert forall|k: int| 0 <= k < n.payload_order().len() implies #[trigger] n.payload_order()[k]
        != c by {
        lemma_not_placed(n, c, k);
    }
    lemma_placed_data_kept(n, n.payload_order(), c, n.payload_order().len() as int);
}

/// What the record of a written entry holds when it is read: the name
/// offset and the size that the entry was written with.
pub proof fn lemma_file_fields(t: Tree, c: usize)
    requires
        c < t.entries.len(),
        t.entries.len() <= usize::MAX,
    ensures
        t.written().entries[c as int].name == t.entries[c as int].name,
        t.written().entries[c as int].attr == t.entries[c as int].attr,
        t.written().entries[c as int].folder == t.entries[c as int].folder,
        t.written().entries[c as int].data == t.entries[c as int].data,
        t.written().entries[c as int].node.id == t.entries[c as int].node.id,
        t.written().entries[c as int].node.data_size == t.entries[c as int].node.data_size,
        t.written().entries[c as int].name_off == t.named().entries[c as int].name_off,
        t.written().entries[c as int].size_field() == t.entries[c as int].size_field(),
{
    lemma_named_entry(t, c as int);
    lemma_placed_entry(t.named(), c as int);
}

/// A written directory entry is read from the written bytes with its
/// directory and without payload, and nothing is wrong with it.
pub proof fn lemma_dir_entry_read(t: Tree, endian: Endian, j: int)
    requires
        t.written().image_len(t.names_table()) <= u32::MAX,
        t.entries.len() <= usize::MAX,
        0 <= j < t.table.len(),
        t.table[j] < t.entries.len(),
        t.written().entries[t.table[j] as int].name_off < 0x100_0000,
        lookup(t.names_table(), t.written().entries[t.table[j] as int].name_off) == Some(
            t.entries[t.table[j] as int].name,
        ),
        settled_entry(t.entries[t.table[j] as int]),
        t.entries[t.table[j] as int].is_dir(),
        t.entries[t.table[j] as int].folder is Some ==> t.entries[t.table[j] as int].folder.unwrap()
            < t.dirs.len(),
    ensures
        ({
            let old = t.entries[t.table[j] as int];
            let read = raw_file(t.bytes(endian), t.frame(endian), j);
            &&& read.name == old.name
            &&& read.attr == old.attr
            &&& read.folder == old.folder
            &&& read.data == old.data
            &&& read.node.id == old.node.id
            &&& read.node.hash == spec_name_hash(old.name)
            &&& file_error(t.bytes(endian), t.frame(endian), j) is None
        }),
{
    let fr = t.frame(endian);
    let image = t.bytes(endian);
    let c = t.table[j];
    let old = t.entries[c as int];
    lemma_file_node_read(t, endian, j);
    lemma_file_fields(t, c);
    lemma_dir_entry_kept(t, c);
    let node = file_node(image, fr, j);
    let attr = FileAttr((node.attr_and_off / 0x100_0000) as u8);
    assert(attr == old.attr);
    assert(fr.names == t.names_table());
    assert(old.data =~= Seq::<u8>::empty());
    assert(fr.dir_count() == t.dirs.len()) by {
        lemma_bytes_parts(t, endian);
    }
}

/// A written file is read from the written bytes with its payload, and
/// nothing is wrong with it.
pub proof fn lemma_plain_file_read(t: Tree, endian: Endian, j: int)
    requires
        t.writable(),
        t.linked(),
        t.entries.len() <= usize::MAX,
        0 <= j < t.table.len(),
        t.table[j] < t.entries.len(),
        t.written().entries[t.table[j] as int].name_off < 0x100_0000,
        lookup(t.names_table(), t.written().entries[t.table[j] as int].name_off) == Some(
            t.entries[t.table[j] as int].name,
        ),
        settled_entry(t.entries[t.table[j] as int]),
        !t.entries[t.table[j] as int].is_dir(),
    ensures
        ({
            let old = t.entries[t.table[j] as int];
            let read = raw_file(t.bytes(endian), t.frame(endian), j);
            &&& read.name == old.name
            &&& read.attr == old.attr
            &&& read.folder == old.folder
            &&& read.data == old.data
            &&& read.node.id == old.node.id
            &&& read.node.hash == spec_name_hash(old.name)
            &&& file_error(t.bytes(endian), t.frame(endian), j) is None
        }),
{
    let u = t.written();
    let fr = t.frame(endian);
    let image = t.bytes(endian);
    let c = t.table[j];
    let old = t.entries[c as int];
    lemma_file_node_read(t, endian, j);
    lemma_file_fields(t, c);
    lemma_payload_read(t, endian, j);
    let node = file_node(image, fr, j);
    let attr = FileAttr((node.attr_and_off / 0x100_0000) as u8);
    assert(attr == old.attr);
    assert(fr.names == t.names_table());
    assert(fr.payload_start() == u.payload_off(t.names_table())) by {
        lemma_bytes_parts(t, endian);
    }
}

/// A written entry of the file table is read from the written bytes with
/// its name, its attributes, its directory and its payload, and nothing is
/// wrong with it.
pub proof fn lemma_file_read(t: Tree, endian: Endian, j: int)
    requires
        t.well_named(),
        t.writable(),
        t.covered(),
        t.settled(),
        t.linked(),
        t.entries.len() <= usize::MAX,
        0 <= j < t.table.len(),
    ensures
        ({
            let old = t.entries[t.table[j] as int];
            let read = raw_file(t.bytes(endian), t.frame(endian), j);
            &&& read.name == old.name
            &&& read.attr == old.attr
            &&& read.folder == old.folder
            &&& read.data == old.data
            &&& read.node.id == old.node.id
            &&& read.node.hash == spec_name_hash(old.name)
            &&& file_error(t.bytes(endian), t.frame(endian), j) is None
        }),
{
    let u = t.written();
    let c = t.table[j];
    let old = t.entries[c as int];
    assert(c < t.entries.len());
    assert(u.entries[t.table[j] as int].name_off < 0x100_0000) by {
        lemma_bytes_parts(t, endian);
        assert(u.table[j] == t.table[j]);
    }
    assert(lookup(t.names_table(), u.entries[c as int].name_off) == Some(old.name)) by {
        lemma_file_name_read(t, j);
        lemma_file_fields(t, c);
    }
    assert(settled_entry(t.entries[t.table[j] as int]));
    if old.is_dir() {
        assert(old.folder is Some ==> old.folder.unwrap() < t.dirs.len());
        lemma_dir_entry_read(t, endian, j);
    } else {
        lemma_plain_file_read(t, endian, j);
    }
}

/// No directory entry is among the entries whose payload is placed.
pub proof fn lemma_not_placed(n: Tree, c: usize, k: int)
    requires
        c < n.entries.len(),
        n.entries[c as int].is_dir(),
        0 <= k < n.payload_order().len(),
    ensures
        n.payload_order()[k] != c,
{
    let m1 = n.group(crate::image::MRAM);
    let m2 = n.group(crate::image::ARAM);
    let m3 = n.group(crate::image::DVD);
    if k < m1.len() {
        n.table.lemma_filter_pred(n.in_group(crate::image::MRAM), k);
    } else if k < m1.len() + m2.len() {
        n.table.lemma_filter_pred(n.in_group(crate::image::ARAM), k - m1.len());
    } else {
        n.table.lemma_filter_pred(n.in_group(crate::image::DVD), k - m1.len() - m2.len());
    }
}

/// A directory that was read is the directory that was written: it has
/// its name, the root is the first, and its children are the entries that
/// stand in the file table where its children stood.
pub open spec fn same_dir(t: Tree, read: DirModel, d: int) -> bool {
    &&& read.name == t.dirs[d].name
    &&& read.is_root == (d == 0)
    &&& read.children.len() == t.dirs[d].children.len()
    &&& forall|k: int|
        0 <= k < read.children.len() ==> (#[trigger] read.children[k]) < t.table.len()
            && t.table[read.children[k] as int] == t.dirs[d].children[k]
}

/// An entry that was read is the entry that was written: it has its name,
/// its attributes, its id, its directory and its payload.
pub open spec fn same_entry(old: FileModel, read: FileModel) -> bool {
    &&& read.name == old.name
    &&& read.attr == old.attr
    &&& read.node.id == old.node.id
    &&& read.folder == old.folder
    &&& read.data == old.data
}

/// A tree that was read is the tree that was written: it gives ids as
/// that did, and it has its directories, and as its entries those of the
/// file table in the order of the table. Every child of a directory has
/// that directory as its parent.
pub open spec fn same_tree(t: Tree, read: Tree) -> bool {
    &&& forall|d: int, k: int|
        0 <= d < read.dirs.len() && 0 <= k < read.dirs[d].children.len() ==> read.entries[
                #[trigger] read.dirs[d].children[k] as int
            ].parent == Some(d as usize)
    &&& read.sync() == t.sync()
    &&& read.next_id() == t.next_id()
    &&& read.dirs.len() == t.dirs.len()
    &&& read.entries.len() == t.table.len()
    &&& read.table.len() == t.table.len()
    &&& forall|j: int| 0 <= j < read.table.len() ==> #[trigger] read.table[j] == j
    &&& forall|d: int| 0 <= d < t.dirs.len() ==> same_dir(t, #[trigger] read.dirs[d], d)
    &&& forall|j: int|
        0 <= j < t.table.len() ==> same_entry(t.entries[t.table[j] as int], #[trigger] read.entries[j])
}

/// Nothing is wrong with the entries from `from` on if nothing is wrong
/// with any of them.
pub proof fn lemma_files_error_none(data: Seq<u8>, fr: Frame, from: int)
    requires
        0 <= from,
        forall|j: int| from <= j < fr.file_count() ==> file_error(data, fr, j) is None,
    ensures
        files_error(data, fr, from) is None,
    decreases fr.file_count() - from,
{
    if from < fr.file_count() {
        lemma_files_error_none(data, fr, from + 1);
    }
}

/// The directory `d` that is read from the written bytes is the directory
/// that was written.
pub proof fn lemma_same_dir(t: Tree, endian: Endian, d: int)
    requires
        t.well_named(),
        t.writable(),
        t.covered(),
        t.ranged(),
        t.dirs.len() <= usize::MAX,
        0 <= d < t.dirs.len(),
    ensures
        same_dir(t, parsed_dir(t.bytes(endian), t.frame(endian), d), d),
        range_ok(t.bytes(endian), t.frame(endian), d),
        lookup(t.frame(endian).names, dir_node(t.bytes(endian), t.frame(endian), d).name_off) is Some,
{
    lemma_dir_read(t, endian, d);
    let read = parsed_dir(t.bytes(endian), t.frame(endian), d);
    let dir = t.dirs[d];
    assert forall|k: int| 0 <= k < read.children.len() implies (#[trigger] read.children[k]) < t.table.len()
        && t.table[read.children[k] as int] == t.dirs[d].children[k] by {
        assert(t.table[dir.node.file_off + k] == dir.children[k]);
    }
}

/// Data whose headers are read, whose tables lie inside them, whose
/// directories have their names and ranges inside the file table, and with
/// whose entries nothing is wrong, are read as the tree that they hold.
pub proof fn lemma_parse_ok(data: Seq<u8>, native: Endian, fr: Frame)
    requires
        spec_read_headers(data, native) == Ok::<(Endian, Header, DataHeader), crate::error::ArchiveError>(
            (fr.endian, fr.header, fr.data_header),
        ),
        tables_fit(fr.header, fr.data_header, data.len() as int),
        names_of(data, fr.header, fr.data_header) == fr.names,
        forall|d: int|
            0 <= d < fr.dir_count() ==> lookup(fr.names, (#[trigger] dir_node(data, fr, d)).name_off)
                is Some,
        forall|d: int| 0 <= d < fr.dir_count() ==> #[trigger] range_ok(data, fr, d),
        forall|j: int| 0 <= j < fr.file_count() ==> file_error(data, fr, j) is None,
    ensures
        parse(data, native) == Ok::<Tree, crate::error::ArchiveError>(parsed_tree(data, fr)),
{
    lemma_files_error_none(data, fr, 0);
    let found = Frame {
        endian: fr.endian,
        header: fr.header,
        data_header: fr.data_header,
        names: names_of(data, fr.header, fr.data_header),
    };
    assert(found == fr);
}

/// Every directory that is read from the written bytes is the directory
/// that was written.
pub proof fn lemma_all_dirs(t: Tree, endian: Endian)
    requires
        t.well_named(),
        t.writable(),
        t.covered(),
        t.ranged(),
        t.dirs.len() <= usize::MAX,
    ensures
        forall|d: int|
            0 <= d < t.dirs.len() ==> lookup(
                t.frame(endian).names,
                (#[trigger] dir_node(t.bytes(endian), t.frame(endian), d)).name_off,
            ) is Some,
        forall|d: int| 0 <= d < t.dirs.len() ==> #[trigger] range_ok(t.bytes(endian), t.frame(endian), d),
        forall|d: int|
            0 <= d < t.dirs.len() ==> same_dir(t, #[trigger] parsed_dir(t.bytes(endian), t.frame(endian), d), d),
{
    assert forall|d: int| 0 <= d < t.dirs.len() implies lookup(
        t.frame(endian).names,
        (#[trigger] dir_node(t.bytes(endian), t.frame(endian), d)).name_off,
    ) is Some by {
        lemma_same_dir(t, endian, d);
    }
    assert forall|d: int| 0 <= d < t.dirs.len() implies #[trigger] range_ok(
        t.bytes(endian),
        t.frame(endian),
        d,
    ) by {
        lemma_same_dir(t, endian, d);
    }
    assert forall|d: int| 0 <= d < t.dirs.len() implies same_dir(
        t,
        #[trigger] parsed_dir(t.bytes(endian), t.frame(endian), d),
        d,
    ) by {
        lemma_same_dir(t, endian, d);
    }
}

/// Every entry that is read from the written bytes is the entry that was
/// written, and nothing is wrong with it.
pub proof fn lemma_all_files(t: Tree, endian: Endian)
    requires
        t.well_named(),
        t.writable(),
        t.covered(),
        t.settled(),
        t.linked(),
        t.entries.len() <= usize::MAX,
    ensures
        forall|j: int|
            0 <= j < t.table.len() ==> file_error(t.bytes(endian), t.frame(endian), j) is None,
        forall|j: int|
            0 <= j < t.table.len() ==> same_entry(
                t.entries[t.table[j] as int],
                #[trigger] parsed_file(t.bytes(endian), t.frame(endian), j),
            ),
{
    assert forall|j: int| 0 <= j < t.table.len() implies file_error(
        t.bytes(endian),
        t.frame(endian),
        j,
    ) is None by {
        lemma_file_read(t, endian, j);
    }
    assert forall|j: int| 0 <= j < t.table.len() implies same_entry(
        t.entries[t.table[j] as int],
        #[trigger] parsed_file(t.bytes(endian), t.frame(endian), j),
    ) by {
        lemma_file_read(t, endian, j);
    }
}

/// In data in which no entry lies in the range of another directory, the
/// parent of an entry in the range of the directory `d` is `d`.
pub proof fn lemma_parent_found(data: Seq<u8>, fr: Frame, j: int, d: int, upto: int)
    requires
        0 <= d < upto,
        d <= usize::MAX,
        in_range(data, fr, d, j),
        forall|e: int| 0 <= e < upto && e != d ==> !#[trigger] in_range(data, fr, e, j),
    ensures
        parent_of(data, fr, j, upto) == Some(d as usize),
    decreases upto,
{
    if upto - 1 != d {
        lemma_parent_found(data, fr, j, d, upto - 1);
    }
}

/// The child `k` of the directory `d` that is read from the written bytes
/// has `d` as its parent, where the ranges of the directories lie apart.
pub proof fn lemma_parent_read(t: Tree, endian: Endian, d: int, k: int)
    requires
        t.well_named(),
        t.writable(),
        t.covered(),
        t.ranged(),
        t.ranges_apart(),
        t.dirs.len() <= usize::MAX,
        t.frame(endian).dir_count() == t.dirs.len(),
        0 <= d < t.dirs.len(),
        0 <= k < t.dirs[d].children.len(),
    ensures
        parent_of(t.bytes(endian), t.frame(endian), t.dirs[d].node.file_off + k, t.dirs.len() as int) == Some(
            d as usize,
        ),
        dir_node(t.bytes(endian), t.frame(endian), d).file_off == t.dirs[d].node.file_off,
        dir_node(t.bytes(endian), t.frame(endian), d).file_count == t.dirs[d].children.len(),
        t.dirs[d].node.file_off + k <= usize::MAX,
{
    let image = t.bytes(endian);
    let fr = t.frame(endian);
    let j = t.dirs[d].node.file_off + k;
    lemma_dir_read(t, endian, d);
    assert(in_range(image, fr, d, j));
    assert(j <= 0xFFFF_FFFF + 0xFFFF);
    assert forall|e: int| 0 <= e < t.dirs.len() && e != d implies !#[trigger] in_range(image, fr, e, j) by {
        lemma_dir_read(t, endian, e);
        assert(t.apart(d, e));
    }
    lemma_parent_found(image, fr, j, d, t.dirs.len() as int);
}

/// An entry that is read as a child of the directory `d` has `d` as its
/// parent if `d` is the last directory with the entry in its range.
pub proof fn lemma_child_parent(data: Seq<u8>, fr: Frame, d: int, k: int)
    requires
        0 <= k < dir_node(data, fr, d).file_count,
        dir_node(data, fr, d).file_off + k <= usize::MAX,
        parent_of(data, fr, dir_node(data, fr, d).file_off + k, fr.dir_count()) == Some(d as usize),
    ensures
        parsed_file(data, fr, parsed_dir(data, fr, d).children[k] as int).parent == Some(d as usize),
{
}

/// Every child of a directory that is read from the written bytes has
/// that directory as its parent, where the ranges of the directories lie
/// apart.
pub proof fn lemma_all_parents(t: Tree, endian: Endian)
    requires
        t.well_named(),
        t.writable(),
        t.covered(),
        t.ranged(),
        t.ranges_apart(),
        t.dirs.len() <= usize::MAX,
        t.frame(endian).dir_count() == t.dirs.len(),
    ensures
        forall|d: int, k: int|
            0 <= d < t.dirs.len() && 0 <= k < t.dirs[d].children.len() ==> parsed_file(
                t.bytes(endian),
                t.frame(endian),
                #[trigger] parsed_dir(t.bytes(endian), t.frame(endian), d).children[k] as int,
            ).parent == Some(d as usize),
{
    let image = t.bytes(endian);
    let fr = t.frame(endian);
    assert forall|d: int, k: int| 0 <= d < t.dirs.len() && 0 <= k < t.dirs[d].children.len() implies parsed_file(
        image,
        fr,
        #[trigger] parsed_dir(image, fr, d).children[k] as int,
    ).parent == Some(d as usize) by {
        lemma_parent_read(t, endian, d, k);
        lemma_child_parent(image, fr, d, k);
    }
}

/// The tree that the written bytes hold is the tree that was written.
pub proof fn lemma_parsed_same(t: Tree, endian: Endian)
    requires
        t.frame(endian).dir_count() == t.dirs.len(),
        forall|d: int, k: int|
            0 <= d < t.dirs.len() && 0 <= k < t.dirs[d].children.len() ==> parsed_file(
                t.bytes(endian),
                t.frame(endian),
                #[trigger] parsed_dir(t.bytes(endian), t.frame(endian), d).children[k] as int,
            ).parent == Some(d as usize),
        t.frame(endian).file_count() == t.table.len(),
        t.frame(endian).data_header.sync == t.sync(),
        t.frame(endian).data_header.next_idx == t.next_id(),
        forall|d: int|
            0 <= d < t.dirs.len() ==> same_dir(t, #[trigger] parsed_dir(t.bytes(endian), t.frame(endian), d), d),
        forall|j: int|
            0 <= j < t.table.len() ==> same_entry(
                t.entries[t.table[j] as int],
                #[trigger] parsed_file(t.bytes(endian), t.frame(endian), j),
            ),
    ensures
        same_tree(t, parsed_tree(t.bytes(endian), t.frame(endian))),
{
    let image = t.bytes(endian);
    let fr = t.frame(endian);
    let read = parsed_tree(image, fr);
    assert forall|d: int| 0 <= d < t.dirs.len() implies same_dir(t, #[trigger] read.dirs[d], d) by {
        assert(read.dirs[d] == parsed_dir(image, fr, d));
    }
    assert forall|d: int, k: int|
        0 <= d < read.dirs.len() && 0 <= k < read.dirs[d].children.len() implies read.entries[
            #[trigger] read.dirs[d].children[k] as int
        ].parent == Some(d as usize) by {
        assert(read.dirs[d] == parsed_dir(image, fr, d));
        assert(same_dir(t, parsed_dir(image, fr, d), d));
        let c = parsed_dir(image, fr, d).children[k];
        assert(c < t.table.len());
        assert(read.entries[c as int] == parsed_file(image, fr, c as int));
    }
    assert forall|j: int| 0 <= j < t.table.len() implies same_entry(
        t.entries[t.table[j] as int],
        #[trigger] read.entries[j],
    ) by {
        assert(read.entries[j] == parsed_file(image, fr, j));
    }
}

/// An archive whose file table is in order is read from the bytes that it
/// is written to: reading them succeeds, and gives a tree with the names
/// of its directories, the children of each in their order, and the names,
/// the attributes, the directories and the payloads of its entries. This
/// holds of an archive
/// - whose links lead somewhere, and that can be written,
/// - in which the children of every directory are its range of the file
///   table, and the ranges of two directories share no position,
/// - whose entries are directory entries that name their directory, files
///   whose size is that of their payload, or neither and without payload,
/// - whose names are not empty and hold no zero byte, and
/// - in which every entry of the file table lies beneath the root, and
///   every directory but the root beneath a link of its own name.
pub proof fn lemma_read_back(t: Tree, endian: Endian, native: Endian)
    requires
        t.linked(),
        t.dirs.len() <= usize::MAX,
        t.entries.len() <= usize::MAX,
        t.writable(),
        t.ranged(),
        t.ranges_apart(),
        t.settled(),
        t.well_named(),
        t.covered(),
    ensures
        parse(t.bytes(endian), native) is Ok,
        same_tree(t, parse(t.bytes(endian), native).unwrap()),
{
    let image = t.bytes(endian);
    let fr = t.frame(endian);
    lemma_frame_read(t, endian, native);
    assert(fr.dir_count() == t.dirs.len() && fr.file_count() == t.table.len()) by {
        lemma_bytes_parts(t, endian);
    }
    assert(fr.data_header.sync == t.sync() && fr.data_header.next_idx == t.next_id()) by {
        lemma_written_dir(t, 0);
    }
    lemma_all_dirs(t, endian);
    lemma_all_files(t, endian);
    lemma_all_parents(t, endian);
    lemma_parse_ok(image, native, fr);
    lemma_parsed_same(t, endian);
}

impl Tree {
    /// The walk from the root lists every directory, and every entry of the
    /// file table is a child of some directory.
    pub open spec fn whole(self) -> bool {
        &&& forall|d: usize| d < self.dirs.len() ==> #[trigger] self.dir_order().contains(d)
        &&& forall|j: int| 0 <= j < self.table.len() ==> is_child(self, #[trigger] self.table[j])
    }

    /// Every child of a directory is a directory entry that names its
    /// directory, a file whose size is that of its payload, or an entry
    /// that is neither and has no payload.
    pub open spec fn children_settled(self) -> bool {
        forall|d: int, k: int|
            0 <= d < self.dirs.len() && 0 <= k < self.dirs[d].children.len() ==> settled_entry(
                self.entries[#[trigger] self.dirs[d].children[k] as int],
            )
    }

    /// Every link to a sub-directory bears the name of the directory.
    pub open spec fn links_named(self) -> bool {
        forall|d: int, k: int, f: usize|
            0 <= d < self.dirs.len() && 0 <= k < self.dirs[d].children.len() && #[trigger] links_to(
                self,
                self.dirs[d].children[k],
                f,
            ) && f < self.dirs.len() ==> self.entries[self.dirs[d].children[k] as int].name
                == self.dirs[f as int].name
    }
}

/// In a strict tree that the walk lists as a whole, the walk meets every
/// entry of the file table.
pub proof fn lemma_table_walked(t: Tree, j: int)
    requires
        t.linked(),
        t.tree_shaped(),
        t.whole(),
        0 < t.dirs.len() <= usize::MAX,
        0 <= j < t.table.len(),
    ensures
        t.walk().contains(t.table[j]),
{
    let n = t.dirs.len();
    let listed = t.dirs_from(0, 0, n);
    let c = t.table[j];
    assert(is_child(t, c));
    let (d, k) = choose|d: int, k: int|
        0 <= d < t.dirs.len() && 0 <= k < t.dirs[d].children.len() && #[trigger] t.dirs[d].children[k] == c;
    if d == 0 {
        lemma_children_walked(t, 0, 0, n, k);
    } else {
        let x = d as usize;
        assert(t.dir_order().contains(x));
        lemma_contains_add(seq![0usize], listed, x);
        if seq![0usize].contains(x) {
            let i = seq![0usize].index_of(x);
            assert(seq![0usize][i] == 0);
        }
        assert(t.dir_order() == seq![0usize] + listed);
        lemma_listed_expanded(t, 0, 0, n, seq![0usize], x, k);
    }
}

/// In a strict tree no link of the walk leads to the root, and each leads
/// to a directory that exists and bears its name, if every link does.
pub proof fn lemma_walk_link(t: Tree, k: int, f: usize)
    requires
        t.linked(),
        t.tree_shaped(),
        t.links_named(),
        0 < t.dirs.len(),
        0 <= k < t.walk().len(),
        links_to(t, t.walk()[k], f),
    ensures
        f != 0,
        f < t.dirs.len(),
        t.entries[t.walk()[k] as int].name == t.dirs[f as int].name,
{
    let n = t.dirs.len();
    let walk = t.walk();
    let listed = t.dirs_from(0, 0, n);
    let c = walk[k];
    assert(walk.contains(c));
    lemma_links_listed(t, 0, 0, n, c, f);
    lemma_dirs_from_valid(t, 0, 0, n);
    let i = listed.index_of(f);
    assert(listed[i] == f);
    assert(t.dir_order() == seq![0usize] + listed);
    if f == 0 {
        assert(t.dir_order()[0] == t.dir_order()[1 + i]);
    }
    lemma_walk_children(t, 0, 0, n, c);
    let (d, q) = choose|d: int, q: int|
        0 <= d < t.dirs.len() && 0 <= q < t.dirs[d].children.len() && #[trigger] t.dirs[d].children[q] == c;
    assert(links_to(t, t.dirs[d].children[q], f));
}

/// The walk meets a link to every directory but the root that it lists.
pub proof fn lemma_has_link(t: Tree, d: usize)
    requires
        t.whole(),
        1 <= d < t.dirs.len(),
    ensures
        t.has_link(d),
{
    let n = t.dirs.len();
    let listed = t.dirs_from(0, 0, n);
    assert(t.dir_order().contains(d));
    assert(t.dir_order() == seq![0usize] + listed);
    lemma_contains_add(seq![0usize], listed, d);
    if seq![0usize].contains(d) {
        let i = seq![0usize].index_of(d);
        assert(seq![0usize][i] == 0);
    }
    lemma_listed_linked(t, 0, 0, n, d);
    let walk = t.walk_from(0, 0, n);
    let k = choose|k: int| 0 <= k < walk.len() && links_to(t, #[trigger] walk[k], d);
    assert(t.walk() == walk);
    assert(0 <= k < t.walk().len() && links_to(t, t.walk()[k], d));
}

/// In a strict tree that the walk lists as a whole, the walk meets every
/// entry of the file table, no link leads to the root, and a link leads to
/// every other directory.
pub proof fn lemma_covered(t: Tree)
    requires
        t.linked(),
        t.tree_shaped(),
        t.whole(),
        t.links_named(),
        0 < t.dirs.len() <= usize::MAX,
    ensures
        t.covered(),
{
    let walk = t.walk();
    assert forall|j: int| 0 <= j < t.table.len() implies walk.contains(#[trigger] t.table[j]) by {
        lemma_table_walked(t, j);
    }
    assert forall|k: int, f: usize| 0 <= k < walk.len() && #[trigger] links_to(t, walk[k], f) implies f
        != 0 && f < t.dirs.len() && t.entries[walk[k] as int].name == t.dirs[f as int].name by {
        lemma_walk_link(t, k, f);
    }
    assert forall|d: usize| 1 <= d < t.dirs.len() implies #[trigger] t.has_link(d) by {
        lemma_has_link(t, d);
    }
}

/// The entries of the file table are settled if the children of every
/// directory are.
pub proof fn lemma_settled(t: Tree)
    requires
        t.whole(),
        t.children_settled(),
    ensures
        t.settled(),
{
    assert forall|j: int| 0 <= j < t.table.len() implies settled_entry(
        t.entries[#[trigger] t.table[j] as int],
    ) by {
        let c = t.table[j];
        assert(is_child(t, c));
        let (d, q) = choose|d: int, q: int|
            0 <= d < t.dirs.len() && 0 <= q < t.dirs[d].children.len() && #[trigger] t.dirs[d].children[q]
                == c;
        assert(settled_entry(t.entries[t.dirs[d].children[q] as int]));
    }
}

/// Reading is the inverse of writing. An archive that is a strict tree
/// with a file table in order is read from the bytes that it is written to
/// as it was written: with the names of its directories, the children of
/// each in their order, and the names, the attributes, the directories and
/// the payloads of its entries. This holds of an archive that can be
/// written and
/// - in which the walk from the root lists every directory,
/// - in which the children of every directory are its range of the file
///   table, the ranges of two directories share no position, and the
///   table holds nothing else,
/// - whose entries are directory entries that name their directory, files
///   whose size is that of their payload, or neither and without payload,
/// - in which every link bears the name of its directory.
pub proof fn lemma_round_trip(t: Tree, endian: Endian, native: Endian)
    requires
        t.linked(),
        0 < t.dirs.len() <= usize::MAX,
        t.entries.len() <= usize::MAX,
        t.tree_shaped(),
        t.writable(),
        t.ranged(),
        t.ranges_apart(),
        t.whole(),
        t.children_settled(),
        t.links_named(),
    ensures
        parse(t.bytes(endian), native) is Ok,
        same_tree(t, parse(t.bytes(endian), native).unwrap()),
{
    lemma_covered(t);
    assert(t.well_named());
    lemma_settled(t);
    lemma_read_back(t, endian, native);
}

} // verus!
