//! What holds of every archive: the reserved offsets of the string table,
//! the ranges of a sorted file table, the ids of its files, and the refusal
//! of a record that names a directory that does not exist.

use vstd::prelude::*;
use crate::bytes::Endian;
use crate::error::ArchiveError;
use crate::header::spec_read_headers;
use crate::nodes::file::{FileAttr, NO_FOLDER};
use crate::parse::{dir_node, file_error, files_error, Frame, names_of, parse, raw_file, tables_fit};
use crate::sort::lemma_index_of_unique;
use crate::table::lookup;
use crate::tree::{dot_text, dotdot_text, Tree};
use crate::walk::lemma_table_prefix;

verus! {

/// Adding names to a string table leaves its first entries where they are.
pub proof fn lemma_add_names_prefix(t: Tree, es: Seq<(u32, Seq<char>)>, walk: Seq<usize>)
    ensures
        t.add_names(es, walk).len() >= es.len(),
        t.add_names(es, walk).take(es.len() as int) == es,
    decreases walk.len(),
{
    if walk.len() == 0 {
        assert(es.take(es.len() as int) =~= es);
    } else {
        lemma_add_names_prefix(t, es, walk.drop_last());
        let before = t.add_names(es, walk.drop_last());
        assert(t.add_names(es, walk).take(es.len() as int) =~= before.take(es.len() as int));
    }
}

/// The string table of every archive starts with `.` at offset 0 and `..`
/// at offset 2, and it holds the name of the root at the name offset that
/// the root is given: as its third entry at offset 5, unless the root is
/// itself named `.` or `..` and so has its name at 0 or 2.
pub proof fn lemma_reserved_offsets(t: Tree)
    ensures
        t.names_table().len() >= 2,
        t.names_table()[0] == (0u32, dot_text()),
        t.names_table()[1] == (2u32, dotdot_text()),
        lookup(t.names_table(), 0) == Some(dot_text()),
        lookup(t.names_table(), 2) == Some(dotdot_text()),
        lookup(t.names_table(), t.root_off()) == Some(t.root_name()),
        t.root_name() != dot_text() && t.root_name() != dotdot_text() ==> t.names_table().len() >= 3
            && t.names_table()[2] == (5u32, t.root_name()) && t.root_off() == 5,
{
    lemma_add_names_prefix(t, t.base_table(), t.walk());
    let table = t.names_table();
    let base = t.base_table();
    if t.root_name() == dot_text() || t.root_name() == dotdot_text() {
        crate::roundtrip::lemma_base_dots(t);
    } else {
        crate::roundtrip::lemma_base_entries(t);
        assert(table.take(3)[2] == base[2]);
    }
    assert(table.take(base.len() as int)[0] == base[0]);
    assert(table.take(base.len() as int)[1] == base[1]);
    reveal_with_fuel(crate::table::lookup_from, 4);
}

/// The children of the directory at position `k` of an order stand in the
/// table of that order behind the children of the directories before it.
pub proof fn lemma_range_in_table(t: Tree, order: Seq<usize>, k: int)
    requires
        0 <= k < order.len(),
    ensures
        ({
            let first = t.table_of(order.take(k)).len() as int;
            let kids = t.sorted_children(order[k]);
            &&& first + kids.len() <= t.table_of(order).len()
            &&& t.table_of(order).subrange(first, first + kids.len()) == kids
            &&& t.table_of(order.take(k + 1)).len() == first + kids.len()
        }),
{
    lemma_table_prefix(t, order, k);
    lemma_table_prefix(t, order, k + 1);
    assert(order.take(k + 1).drop_last() =~= order.take(k));
    let before = t.table_of(order.take(k));
    let kids = t.sorted_children(order[k]);
    let both = t.table_of(order.take(k + 1));
    assert(both == before + kids);
    let table = t.table_of(order);
    let first = before.len() as int;
    assert forall|i: int| 0 <= i < kids.len() implies table.subrange(first, first + kids.len())[i]
        == kids[i] by {
        assert(table.take(both.len() as int)[first + i] == both[first + i]);
    }
    assert(table.subrange(first, first + kids.len()) =~= kids);
}

/// In a sorted archive the children of every directory of the walk are a
/// range of the file table: the range that the directory names holds its
/// children in their order. The ranges follow each other in the order of
/// the walk without a gap, from the start of the table to its end.
pub proof fn lemma_sorted_ranges(t: Tree, k: int)
    requires
        t.tree_shaped(),
        t.sortable_size(),
        0 <= k < t.dir_order().len(),
        t.dir_order()[k] < t.dirs.len(),
    ensures
        ({
            let u = t.sorted();
            let dir = u.dirs[t.dir_order()[k] as int];
            let first = dir.node.file_off as int;
            let count = dir.node.file_count as int;
            &&& count == dir.children.len()
            &&& first + count <= u.table.len()
            &&& u.table.subrange(first, first + count) == dir.children
            &&& k == 0 ==> first == 0
            &&& k + 1 < t.dir_order().len() && t.dir_order()[k + 1] < t.dirs.len() ==> u.dirs[t.dir_order()[k
                + 1] as int].node.file_off == first + count
            &&& k + 1 == t.dir_order().len() ==> first + count == u.table.len()
        }),
{
    let order = t.dir_order();
    let d = order[k];
    lemma_sorted_dir(t, k);
    lemma_range_in_table(t, order, k);
    assert(t.range_start(k) <= 0xFFFF_FFFF);
    assert(t.range_count(k) <= 0xFFFF);
    if k == 0 {
        assert(order.take(0) =~= Seq::<usize>::empty());
    }
    if k + 1 < order.len() && order[k + 1] < t.dirs.len() {
        lemma_sorted_dir(t, k + 1);
        assert(t.range_start(k + 1) <= 0xFFFF_FFFF);
    }
    if k + 1 == order.len() {
        assert(order.take(k + 1) =~= order);
    }
}

/// The directory at position `k` of the walk, after sorting.
pub proof fn lemma_sorted_dir(t: Tree, k: int)
    requires
        t.dir_order().no_duplicates(),
        0 <= k < t.dir_order().len(),
        t.dir_order()[k] < t.dirs.len(),
    ensures
        t.sorted().dirs[t.dir_order()[k] as int] == t.sorted_dir(t.dir_order()[k], k),
        t.sorted().table == t.sorted_table(),
{
    lemma_index_of_unique(t.dir_order(), k);
}

/// In a sorted archive whose ids are positions, the id of every file of
/// the file table is its position, and the next free id is the length of
/// the table. Where ids are no positions, the id of a file is the number of
/// files before it in the table, and the next free id is the number of
/// files.
pub proof fn lemma_sorted_ids(t: Tree, p: int)
    requires
        t.tree_shaped(),
        t.sortable_size(),
        0 <= p < t.sorted_table().len(),
        t.sorted_table()[p] < t.entries.len(),
        t.entries[t.sorted_table()[p] as int].is_file(),
    ensures
        ({
            let u = t.sorted();
            let file = u.entries[u.table[p] as int];
            &&& file.is_file()
            &&& t.sync() ==> file.node.id == p && u.next_id() == u.table.len()
            &&& !t.sync() ==> file.node.id == t.files_before(u.table, p) && u.next_id() == t.files_before(
                u.table,
                u.table.len() as int,
            )
        }),
{
    let table = t.sorted_table();
    let e = table[p];
    lemma_index_of_unique(table, p);
    assert(t.sorted().entries[e as int] == t.sorted_entry(e, p));
    crate::sort::lemma_files_before_bound(t, table, p);
    crate::sort::lemma_files_before_bound(t, table, table.len() as int);
    crate::sort::lemma_files_before_grows(t, table, p, table.len() as int);
}

/// Data with a file record that is marked as a directory and names a
/// directory that does not exist are not read: reading fails. It fails with
/// `CorruptArchive` where the headers can be read, the tables lie inside
/// the data, every directory has its name in the string table, and nothing
/// is wrong with the entries before that record or with its name.
pub proof fn lemma_rejects_missing_directory(data: Seq<u8>, native: Endian, j: int)
    requires
        spec_read_headers(data, native) is Ok,
        ({
            let (endian, header, data_header) = spec_read_headers(data, native).unwrap();
            let fr = Frame { endian, header, data_header, names: names_of(data, header, data_header) };
            &&& tables_fit(header, data_header, data.len() as int)
            &&& 0 <= j < fr.file_count()
            &&& raw_file(data, fr, j).attr.spec_contains(FileAttr::FOLDER)
            &&& raw_file(data, fr, j).node.data != NO_FOLDER
            &&& raw_file(data, fr, j).node.data >= fr.dir_count()
        }),
    ensures
        parse(data, native) is Err,
        ({
            let (endian, header, data_header) = spec_read_headers(data, native).unwrap();
            let fr = Frame { endian, header, data_header, names: names_of(data, header, data_header) };
            (forall|i: int|
                0 <= i < fr.dir_count() ==> lookup(fr.names, (#[trigger] dir_node(data, fr, i)).name_off)
                    is Some) && (forall|x: int| 0 <= x < j ==> file_error(data, fr, x) is None) && lookup(
                fr.names,
                raw_file(data, fr, j).name_off,
            ) is Some ==> parse(data, native) == Err::<Tree, ArchiveError>(ArchiveError::CorruptArchive)
        }),
{
    let (endian, header, data_header) = spec_read_headers(data, native).unwrap();
    let fr = Frame { endian, header, data_header, names: names_of(data, header, data_header) };
    assert(file_error(data, fr, j) is Some);
    lemma_files_error_found(data, fr, 0, j);
    if (forall|x: int| 0 <= x < j ==> file_error(data, fr, x) is None) && lookup(
        fr.names,
        raw_file(data, fr, j).name_off,
    ) is Some {
        lemma_files_error_first(data, fr, 0, j);
    }
}

/// If something is wrong with an entry, something is wrong with the first
/// such entry.
pub proof fn lemma_files_error_found(data: Seq<u8>, fr: Frame, from: int, j: int)
    requires
        0 <= from <= j < fr.file_count(),
        file_error(data, fr, j) is Some,
    ensures
        files_error(data, fr, from) is Some,
    decreases j - from,
{
    if from < j && file_error(data, fr, from) is None {
        lemma_files_error_found(data, fr, from + 1, j);
    }
}

/// What is wrong with the first entry with which something is wrong is what
/// reading reports.
pub proof fn lemma_files_error_first(data: Seq<u8>, fr: Frame, from: int, j: int)
    requires
        0 <= from <= j < fr.file_count(),
        forall|x: int| from <= x < j ==> file_error(data, fr, x) is None,
        file_error(data, fr, j) is Some,
    ensures
        files_error(data, fr, from) == file_error(data, fr, j),
    decreases j - from,
{
    if from < j {
        lemma_files_error_first(data, fr, from + 1, j);
    }
}

/// Writing and reading give back what was sorted. An archive that is
/// sorted and then written is read from the written bytes with the names
/// of its directories, the children of each in the order of the sorted
/// archive, and the names, the attributes, the directories and the
/// payloads of its entries. This holds of an archive
/// - that is a strict tree in which the walk from the root lists every
///   directory, and that can be sorted and, once sorted, written,
/// - whose entries are directory entries without payload, files whose
///   size is that of their payload, or neither and without payload,
/// - in which every link bears the name of its directory.
pub proof fn lemma_sort_write_read(s: Tree, endian: Endian, native: Endian)
    requires
        s.linked(),
        0 < s.dirs.len() <= usize::MAX,
        s.entries.len() <= usize::MAX,
        s.tree_shaped(),
        s.sortable_size(),
        s.all_listed(),
        s.kinds_ok(),
        s.links_named(),
        s.sorted().writable(),
    ensures
        parse(s.sorted().bytes(endian), native) is Ok,
        crate::inverse::same_tree(s.sorted(), parse(s.sorted().bytes(endian), native).unwrap()),
{
    let t = s.sorted();
    crate::stable::lemma_sorted_shape(s);
    crate::settle::lemma_sorted_ranged(s);
    crate::settle::lemma_sorted_apart(s);
    crate::settle::lemma_sorted_table_children(s);
    crate::settle::lemma_sorted_settled(s);
    crate::settle::lemma_sorted_names(s);
    assert(t.dirs.len() == s.dirs.len() && t.entries.len() == s.entries.len());
    crate::inverse::lemma_round_trip(t, endian, native);
}

/// Writing and reading give back what was built. An archive that grew
/// from a root by directories and files beneath directories that were
/// there is read from the bytes that it is written to after sorting as
/// the sorted archive: with the names of its directories,
/// the children of each in their order, and the names, the attributes, the
/// ids, the directories, the parents and the payloads of its entries,
/// provided that it can be sorted and, once sorted, written.
pub proof fn lemma_built_round_trip(s: Tree, endian: Endian, native: Endian)
    requires
        s.regular(),
        s.sortable_size(),
        s.sorted().writable(),
    ensures
        parse(s.sorted().bytes(endian), native) is Ok,
        crate::inverse::same_tree(
            s.sorted(),
            parse(s.sorted().bytes(endian), native).unwrap(),
        ),
        crate::kin::same_parents(
            s.sorted(),
            parse(s.sorted().bytes(endian), native).unwrap(),
        ),
{
    crate::forest::lemma_grown_shape(s);
    lemma_sort_write_read(s, endian, native);
    crate::kin::lemma_sorted_parents(s);
    crate::settle::lemma_sorted_table_children(s);
    crate::kin::lemma_same_parents(s.sorted(), parse(s.sorted().bytes(endian), native).unwrap());
}

} // verus!
