//! Reading what was written: the string table, the records and the headers
//! are read back as they were written.

use vstd::prelude::*;
use crate::bytes::{Endian, u16_at, u16_bytes, u32_at, u32_bytes};
use crate::hash::spec_name_hash;
use crate::header::{DataHeader, Header, spec_data_header, spec_header};
use crate::names::lemma_dot_bytes;
use crate::nodes::directory::{DirModel, NodeModel, spec_short_name};
use crate::nodes::file::{dot, dotdot, FileModel, is_dot_name, Node};
use crate::table::{
    after_add, all_zero_from, find, find_from, has_room, increasing, lemma_find_pushed,
    lemma_find_some, lemma_find_stable, lemma_raw_bytes_prefix, lookup, lookup_from, next_offset,
    packed, raw_bytes, run_end, scan, scan_from, table_bytes, text_len,
};
use crate::text::{lemma_encode_injective, lossy_text};
use crate::tree::{dot_text, dotdot_text, Tree};
use crate::write::{
    lemma_dir_records_len, lemma_file_records_len, lemma_payload_len, lemma_span_nonneg,
};
use vstd::utf8::{encode_utf8, encode_utf8_decode_utf8, encode_utf8_valid_utf8};

verus! {

/// A text that can stand in a string table and be found again: it is not
/// empty and holds no zero byte.
pub open spec fn clean_text(text: Seq<char>) -> bool {
    &&& encode_utf8(text).len() > 0
    &&& forall|i: int| 0 <= i < encode_utf8(text).len() ==> encode_utf8(text)[i] != 0
}

/// Every text of the table is clean.
pub open spec fn clean(es: Seq<(u32, Seq<char>)>) -> bool {
    forall|i: int| 0 <= i < es.len() ==> clean_text(#[trigger] es[i].1)
}

/// A run of bytes without a zero byte that a zero byte follows ends at that
/// zero byte.
pub proof fn lemma_run_end_at(data: Seq<u8>, start: int, end: int)
    requires
        0 <= start <= end < data.len(),
        forall|i: int| start <= i < end ==> data[i] != 0,
        data[end] == 0,
    ensures
        run_end(data, start) == end,
    decreases end - start,
{
    if start < end {
        lemma_run_end_at(data, start + 1, end);
    }
}

/// In a packed table every entry starts where the bytes of the entries
/// before it end.
pub proof fn lemma_packed_offsets(es: Seq<(u32, Seq<char>)>, i: int)
    requires
        packed(es),
        0 <= i <= es.len(),
    ensures
        raw_bytes(es.take(i)).len() == (if i < es.len() {
            es[i].0 as int
        } else {
            next_offset(es)
        }),
    decreases i,
{
    if i == 0 {
        assert(es.take(0) =~= Seq::<(u32, Seq<char>)>::empty());
    } else {
        lemma_packed_offsets(es, i - 1);
        assert(es.take(i).drop_last() =~= es.take(i - 1));
        assert(es.take(i).last() == es[i - 1]);
        if i < es.len() {
            assert(es[(i - 1) + 1].0 == es[i - 1].0 + text_len(es[i - 1].1) + 1);
        } else {
            assert(es.last() == es[i - 1]);
        }
    }
}

/// The bytes of the entry `i` stand at its offset in the bytes of the
/// table, and a zero byte follows them.
pub proof fn lemma_entry_bytes(es: Seq<(u32, Seq<char>)>, i: int)
    requires
        packed(es),
        0 <= i < es.len(),
    ensures
        es[i].0 + text_len(es[i].1) < raw_bytes(es).len(),
        raw_bytes(es).subrange(es[i].0 as int, es[i].0 + text_len(es[i].1)) == encode_utf8(es[i].1),
        raw_bytes(es)[es[i].0 + text_len(es[i].1)] == 0,
{
    lemma_packed_offsets(es, i);
    lemma_raw_bytes_prefix(es, i + 1);
    let part = es.take(i + 1);
    assert(part.drop_last() =~= es.take(i));
    assert(part.last() == es[i]);
    let head = raw_bytes(es.take(i));
    let bytes = encode_utf8(es[i].1);
    assert(raw_bytes(part) == head + bytes + seq![0u8]);
    let raw = raw_bytes(es);
    let off = es[i].0 as int;
    assert forall|k: int| 0 <= k < bytes.len() implies raw.subrange(off, off + bytes.len())[k]
        == bytes[k] by {
        assert(raw.take(raw_bytes(part).len() as int)[off + k] == raw_bytes(part)[off + k]);
    }
    assert(raw.subrange(off, off + bytes.len()) =~= bytes);
    assert(raw.take(raw_bytes(part).len() as int)[off + bytes.len()] == raw_bytes(part)[off
        + bytes.len()]);
}

/// Scanning the bytes of a packed table of clean texts from the offset of
/// the entry `i` finds the entries from `i` on.
pub proof fn lemma_scan_from_entry(es: Seq<(u32, Seq<char>)>, i: int)
    requires
        packed(es),
        clean(es),
        0 <= i <= es.len(),
    ensures
        scan_from(table_bytes(es), raw_bytes(es.take(i)).len() as int) == es.skip(i),
    decreases es.len() - i,
{
    let raw = raw_bytes(es);
    let data = table_bytes(es);
    let start = raw_bytes(es.take(i)).len() as int;
    lemma_packed_offsets(es, i);
    if i == es.len() {
        assert(es.take(i) =~= es);
        assert(start == raw.len());
        assert(all_zero_from(data, start));
        assert(es.skip(i) =~= Seq::<(u32, Seq<char>)>::empty());
    } else {
        lemma_entry_bytes(es, i);
        lemma_scan_from_entry(es, i + 1);
        lemma_packed_offsets(es, i + 1);
        let bytes = encode_utf8(es[i].1);
        let end = start + bytes.len();
        assert(clean_text(es[i].1));
        assert(start == es[i].0);
        assert forall|k: int| start <= k < end implies data[k] != 0 by {
            assert(raw.subrange(start, end)[k - start] == bytes[k - start]);
            assert(data[k] == raw[k]);
        }
        assert(data[end] == raw[end]);
        lemma_run_end_at(data, start, end);
        assert(!all_zero_from(data, start)) by {
            assert(data[start] != 0);
        }
        assert(data.subrange(start, end) =~= bytes) by {
            assert forall|k: int| 0 <= k < bytes.len() implies data.subrange(start, end)[k] == bytes[k] by {
                assert(raw.subrange(start, end)[k] == bytes[k]);
            }
        }
        encode_utf8_valid_utf8(es[i].1);
        encode_utf8_decode_utf8(es[i].1);
        assert(lossy_text(bytes) == es[i].1);
        assert(es.take(i + 1).drop_last() =~= es.take(i));
        assert(raw_bytes(es.take(i + 1)).len() == end + 1);
        assert(es.skip(i) =~= seq![es[i]] + es.skip(i + 1));
        assert(scan_from(data, start) == seq![(start as u32, lossy_text(data.subrange(start, end)))]
            + scan_from(data, end + 1));
    }
}

/// A packed table of clean texts is read back from its bytes as it is.
pub proof fn lemma_scan_table(es: Seq<(u32, Seq<char>)>)
    requires
        packed(es),
        clean(es),
    ensures
        scan(table_bytes(es)) == es,
{
    lemma_scan_from_entry(es, 0);
    assert(es.take(0) =~= Seq::<(u32, Seq<char>)>::empty());
    assert(es.skip(0) =~= es);
}

/// The offsets of a packed table grow.
pub proof fn lemma_packed_increasing(es: Seq<(u32, Seq<char>)>)
    requires
        packed(es),
    ensures
        increasing(es),
{
    assert forall|i: int, j: int| 0 <= i < j < es.len() implies es[i].0 < es[j].0 by {
        lemma_packed_step(es, i, j);
    }
}

proof fn lemma_packed_step(es: Seq<(u32, Seq<char>)>, i: int, j: int)
    requires
        packed(es),
        0 <= i < j < es.len(),
    ensures
        es[i].0 < es[j].0,
    decreases j - i,
{
    assert(es[(j - 1) + 1].0 == es[j - 1].0 + text_len(es[j - 1].1) + 1);
    if i < j - 1 {
        lemma_packed_step(es, i, j - 1);
    }
}

/// A table stays packed, and its texts clean, when a clean text is added
/// for which it has room.
pub proof fn lemma_after_add_packed(es: Seq<(u32, Seq<char>)>, text: Seq<char>)
    requires
        packed(es),
        clean(es),
        clean_text(text),
        has_room(es, text),
    ensures
        packed(after_add(es, text)),
        clean(after_add(es, text)),
{
    if find(es, text) is None {
        let grown = es.push((next_offset(es) as u32, text));
        assert forall|i: int| 0 <= i < grown.len() - 1 implies #[trigger] grown[i + 1].0 == grown[i].0
            + text_len(grown[i].1) + 1 by {
            if i + 1 < es.len() {
                assert(es[i + 1].0 == es[i].0 + text_len(es[i].1) + 1);
            } else {
                assert(es.last() == es[i]);
            }
        }
        assert forall|i: int| 0 <= i < grown.len() implies clean_text(#[trigger] grown[i].1) by {
            if i < es.len() {
                assert(clean_text(es[i].1));
            }
        }
    }
}

/// In a table whose offsets grow, the text that is found at an offset is
/// the text that starts there.
pub proof fn lemma_lookup_found(es: Seq<(u32, Seq<char>)>, text: Seq<char>)
    requires
        increasing(es),
        find(es, text) is Some,
    ensures
        lookup(es, find(es, text).unwrap()) == Some(text),
{
    lemma_find_some(es, text);
    let i = choose|i: int|
        0 <= i < es.len() && #[trigger] es[i].1 == text && es[i].0 == find(es, text).unwrap()
            && forall|j: int| 0 <= j < i ==> es[j].1 != text;
    lemma_lookup_at(es, i, 0);
}

/// In a table whose offsets grow, looking up the offset of the entry `i`
/// gives its text.
pub proof fn lemma_lookup_at(es: Seq<(u32, Seq<char>)>, i: int, from: int)
    requires
        increasing(es),
        0 <= from <= i < es.len(),
    ensures
        lookup_from(es, es[i].0, from) == Some(es[i].1),
    decreases i - from,
{
    if from < i {
        assert(es[from].0 < es[i].0);
        lemma_lookup_at(es, i, from + 1);
    }
}

/// A 32-bit value is read from the place in the data where its bytes stand.
pub proof fn lemma_u32_in(data: Seq<u8>, at: int, v: u32, e: Endian)
    requires
        0 <= at,
        at + 4 <= data.len(),
        data.subrange(at, at + 4) == u32_bytes(v, e),
    ensures
        u32_at(data, at, e) == v,
{
    let part = data.subrange(at, at + 4);
    assert(part[0] == data[at] && part[1] == data[at + 1] && part[2] == data[at + 2] && part[3]
        == data[at + 3]);
}

/// A 16-bit value is read from the place in the data where its bytes stand.
pub proof fn lemma_u16_in(data: Seq<u8>, at: int, v: u16, e: Endian)
    requires
        0 <= at,
        at + 2 <= data.len(),
        data.subrange(at, at + 2) == u16_bytes(v, e),
    ensures
        u16_at(data, at, e) == v,
{
    let part = data.subrange(at, at + 2);
    assert(part[0] == data[at] && part[1] == data[at + 1]);
}

/// A part of a part of the data is a part of the data.
pub proof fn lemma_sub_sub(data: Seq<u8>, off: int, len: int, from: int, to: int)
    requires
        0 <= off,
        off + len <= data.len(),
        0 <= from <= to <= len,
    ensures
        data.subrange(off, off + len).subrange(from, to) == data.subrange(off + from, off + to),
{
    assert(data.subrange(off, off + len).subrange(from, to) =~= data.subrange(off + from, off + to));
}

/// The header is read from the data in which its bytes stand behind the
/// magic.
pub proof fn lemma_header_read(data: Seq<u8>, h: Header, e: Endian)
    requires
        data.len() >= 32,
        data.subrange(4, 32) == h.bytes(e),
    ensures
        spec_header(data, e) == h,
{
    let b = h.bytes(e);
    lemma_sub_sub(data, 4, 28, 0, 4);
    lemma_sub_sub(data, 4, 28, 4, 8);
    lemma_sub_sub(data, 4, 28, 8, 12);
    lemma_sub_sub(data, 4, 28, 12, 16);
    lemma_sub_sub(data, 4, 28, 16, 20);
    lemma_sub_sub(data, 4, 28, 20, 24);
    lemma_sub_sub(data, 4, 28, 24, 28);
    assert(b.subrange(0, 4) =~= u32_bytes(h.size, e));
    assert(b.subrange(4, 8) =~= u32_bytes(h.data_header_off, e));
    assert(b.subrange(8, 12) =~= u32_bytes(h.file_data_off, e));
    assert(b.subrange(12, 16) =~= u32_bytes(h.file_data_len, e));
    assert(b.subrange(16, 20) =~= u32_bytes(h.mram_size, e));
    assert(b.subrange(20, 24) =~= u32_bytes(h.aram_size, e));
    assert(b.subrange(24, 28) =~= u32_bytes(h.dvd_size, e));
    lemma_u32_in(data, 4, h.size, e);
    lemma_u32_in(data, 8, h.data_header_off, e);
    lemma_u32_in(data, 12, h.file_data_off, e);
    lemma_u32_in(data, 16, h.file_data_len, e);
    lemma_u32_in(data, 20, h.mram_size, e);
    lemma_u32_in(data, 24, h.aram_size, e);
    lemma_u32_in(data, 28, h.dvd_size, e);
}

/// The data header is read from the place in the data where its bytes
/// stand.
pub proof fn lemma_data_header_read(data: Seq<u8>, off: int, d: DataHeader, e: Endian)
    requires
        0 <= off,
        off + 32 <= data.len(),
        data.subrange(off, off + 32) == d.bytes(e),
    ensures
        spec_data_header(data, off, e) == d,
{
    let b = d.bytes(e);
    lemma_sub_sub(data, off, 32, 0, 4);
    lemma_sub_sub(data, off, 32, 4, 8);
    lemma_sub_sub(data, off, 32, 8, 12);
    lemma_sub_sub(data, off, 32, 12, 16);
    lemma_sub_sub(data, off, 32, 16, 20);
    lemma_sub_sub(data, off, 32, 20, 24);
    lemma_sub_sub(data, off, 32, 24, 26);
    assert(b.subrange(0, 4) =~= u32_bytes(d.dir_node_count, e));
    assert(b.subrange(4, 8) =~= u32_bytes(d.dir_node_off, e));
    assert(b.subrange(8, 12) =~= u32_bytes(d.file_node_count, e));
    assert(b.subrange(12, 16) =~= u32_bytes(d.file_node_off, e));
    assert(b.subrange(16, 20) =~= u32_bytes(d.string_tbl_size, e));
    assert(b.subrange(20, 24) =~= u32_bytes(d.string_tbl_off, e));
    assert(b.subrange(24, 26) =~= u16_bytes(d.next_idx, e));
    lemma_u32_in(data, off, d.dir_node_count, e);
    lemma_u32_in(data, off + 4, d.dir_node_off, e);
    lemma_u32_in(data, off + 8, d.file_node_count, e);
    lemma_u32_in(data, off + 12, d.file_node_off, e);
    lemma_u32_in(data, off + 16, d.string_tbl_size, e);
    lemma_u32_in(data, off + 20, d.string_tbl_off, e);
    lemma_u16_in(data, off + 24, d.next_idx, e);
    assert(data.subrange(off, off + 32)[26] == b[26]);
}

/// The record of a directory is read from the place in the data where it
/// stands: the label, the name offset, the hash of the name, the number of
/// children and the start of the range.
pub proof fn lemma_dir_record_read(data: Seq<u8>, off: int, dir: DirModel, e: Endian)
    requires
        0 <= off,
        off + 16 <= data.len(),
        data.subrange(off, off + 16) == dir.record(e),
        dir.children.len() <= 0xFFFF,
    ensures
        crate::nodes::directory::spec_node(data, off, e) == (NodeModel {
            short_name: spec_short_name(dir.is_root, dir.name_bytes()),
            name_off: dir.node.name_off,
            hash: spec_name_hash(dir.name),
            file_count: dir.children.len() as u16,
            file_off: dir.node.file_off,
        }),
{
    let b = dir.record(e);
    lemma_sub_sub(data, off, 16, 0, 4);
    lemma_sub_sub(data, off, 16, 4, 8);
    lemma_sub_sub(data, off, 16, 8, 10);
    lemma_sub_sub(data, off, 16, 10, 12);
    lemma_sub_sub(data, off, 16, 12, 16);
    assert(b.subrange(0, 4) =~= spec_short_name(dir.is_root, dir.name_bytes()));
    assert(b.subrange(4, 8) =~= u32_bytes(dir.node.name_off, e));
    assert(b.subrange(8, 10) =~= u16_bytes(spec_name_hash(dir.name), e));
    assert(b.subrange(10, 12) =~= u16_bytes(dir.children.len() as u16, e));
    assert(b.subrange(12, 16) =~= u32_bytes(dir.node.file_off, e));
    lemma_u32_in(data, off + 4, dir.node.name_off, e);
    lemma_u16_in(data, off + 8, spec_name_hash(dir.name), e);
    lemma_u16_in(data, off + 10, dir.children.len() as u16, e);
    lemma_u32_in(data, off + 12, dir.node.file_off, e);
}

/// The record of an entry is read from the place in the data where it
/// stands: the id, the hash of the name, the attributes with the name
/// offset, the data field and the size.
pub proof fn lemma_file_record_read(data: Seq<u8>, off: int, file: FileModel, e: Endian)
    requires
        0 <= off,
        off + 16 <= data.len(),
        data.subrange(off, off + 16) == file.record(e),
        file.name_off < 0x100_0000,
    ensures
        crate::nodes::file::spec_node(data, off, e) == (Node {
            id: file.node.id,
            hash: spec_name_hash(file.name),
            attr_and_off: file.packed_attr(),
            data: file.node.data,
            data_size: file.size_field(),
        }),
        file.packed_attr() % 0x100_0000 == file.name_off,
        file.packed_attr() / 0x100_0000 == file.attr.0,
{
    let b = file.record(e);
    lemma_sub_sub(data, off, 16, 0, 2);
    lemma_sub_sub(data, off, 16, 2, 4);
    lemma_sub_sub(data, off, 16, 4, 8);
    lemma_sub_sub(data, off, 16, 8, 12);
    lemma_sub_sub(data, off, 16, 12, 16);
    assert(b.subrange(0, 2) =~= u16_bytes(file.node.id, e));
    assert(b.subrange(2, 4) =~= u16_bytes(spec_name_hash(file.name), e));
    assert(b.subrange(4, 8) =~= u32_bytes(file.packed_attr(), e));
    assert(b.subrange(8, 12) =~= u32_bytes(file.node.data, e));
    assert(b.subrange(12, 16) =~= u32_bytes(file.size_field(), e));
    lemma_u16_in(data, off, file.node.id, e);
    lemma_u16_in(data, off + 2, spec_name_hash(file.name), e);
    lemma_u32_in(data, off + 4, file.packed_attr(), e);
    lemma_u32_in(data, off + 8, file.node.data, e);
    lemma_u32_in(data, off + 12, file.size_field(), e);
}

/// The record of the directory `i` stands at 16 times `i` in the records
/// of the first `n` directories.
pub proof fn lemma_dir_record_at(t: Tree, e: Endian, n: int, i: int)
    requires
        0 <= i < n,
    ensures
        t.dir_records(e, n).len() == 16 * n,
        t.dir_records(e, n).subrange(16 * i, 16 * i + 16) == t.dirs[i].record(e),
    decreases n,
{
    lemma_dir_records_len(t, e, n);
    lemma_dir_records_len(t, e, n - 1);
    let all = t.dir_records(e, n);
    let before = t.dir_records(e, n - 1);
    if i == n - 1 {
        assert(all.subrange(16 * i, 16 * i + 16) =~= t.dirs[i].record(e));
    } else {
        lemma_dir_record_at(t, e, n - 1, i);
        assert(all.subrange(16 * i, 16 * i + 16) =~= before.subrange(16 * i, 16 * i + 16));
    }
}

/// The record of the entry `j` of the file table stands at 20 times `j` in
/// the records of the first `n` entries.
pub proof fn lemma_file_record_at(t: Tree, e: Endian, n: int, j: int)
    requires
        0 <= j < n,
    ensures
        t.file_records(e, n).len() == 20 * n,
        t.file_records(e, n).subrange(20 * j, 20 * j + 16) == t.entries[t.table[j] as int].record(e),
    decreases n,
{
    lemma_file_records_len(t, e, n);
    lemma_file_records_len(t, e, n - 1);
    let all = t.file_records(e, n);
    let before = t.file_records(e, n - 1);
    if j == n - 1 {
        assert(all.subrange(20 * j, 20 * j + 16) =~= t.entries[t.table[j] as int].record(e));
    } else {
        lemma_file_record_at(t, e, n - 1, j);
        assert(all.subrange(20 * j, 20 * j + 16) =~= before.subrange(20 * j, 20 * j + 16));
    }
}

/// The payload of the entry at position `k` of a list stands in the
/// payloads of the list behind those of the entries before it.
pub proof fn lemma_payload_at(t: Tree, list: Seq<usize>, k: int)
    requires
        0 <= k < list.len(),
    ensures
        ({
            let data = t.entries[list[k] as int].data;
            let at = t.span(list.take(k));
            &&& 0 <= at
            &&& at + data.len() <= t.payload_bytes(list).len()
            &&& t.payload_bytes(list).len() == t.span(list)
            &&& t.payload_bytes(list).subrange(at, at + data.len()) == data
        }),
    decreases list.len(),
{
    let data = t.entries[list[k] as int].data;
    let all = t.payload_bytes(list);
    let before = t.payload_bytes(list.drop_last());
    lemma_payload_len(t, list);
    lemma_payload_len(t, list.drop_last());
    lemma_span_nonneg(t, list.take(k));
    if k == list.len() - 1 {
        assert(list.take(k) =~= list.drop_last());
        assert(all.subrange(before.len() as int, (before.len() + data.len()) as int) =~= data);
    } else {
        lemma_payload_at(t, list.drop_last(), k);
        assert(list.drop_last().take(k) =~= list.take(k));
        let at = t.span(list.take(k));
        assert(all.subrange(at, at + data.len()) =~= before.subrange(at, at + data.len()));
    }
}

/// The table stays packed, and its texts clean, when the clean names of a
/// walk are added for which it has room.
pub proof fn lemma_add_names_packed(t: Tree, es: Seq<(u32, Seq<char>)>, walk: Seq<usize>)
    requires
        packed(es),
        clean(es),
        t.names_fit(es, walk),
        forall|k: int| 0 <= k < walk.len() ==> clean_text(t.entries[#[trigger] walk[k] as int].name),
    ensures
        packed(t.add_names(es, walk)),
        clean(t.add_names(es, walk)),
    decreases walk.len(),
{
    if walk.len() > 0 {
        let shorter = walk.drop_last();
        assert forall|k: int| 0 <= k < shorter.len() implies clean_text(
            t.entries[#[trigger] shorter[k] as int].name,
        ) by {
            assert(shorter[k] == walk[k]);
        }
        lemma_add_names_packed(t, es, shorter);
        let file = t.entries[walk.last() as int];
        if !is_dot_name(file.name_bytes()) {
            assert(clean_text(t.entries[walk[walk.len() - 1] as int].name));
            lemma_after_add_packed(t.add_names(es, shorter), file.name);
        }
    }
}

/// The table with `.`, `..` and the name of a root that is named neither
/// `.` nor `..`: three entries at the offsets 0, 2 and 5.
pub proof fn lemma_base_entries(t: Tree)
    requires
        t.root_name() != dot_text(),
        t.root_name() != dotdot_text(),
    ensures
        t.base_table() == seq![(0u32, dot_text()), (2u32, dotdot_text()), (5u32, t.root_name())],
        text_len(dot_text()) == 1,
        text_len(dotdot_text()) == 2,
        has_room(after_add(after_add(Seq::empty(), dot_text()), dotdot_text()), t.root_name()),
{
    lemma_dot_bytes();
    reveal_with_fuel(find_from, 4);
    let e0 = Seq::<(u32, Seq<char>)>::empty();
    let e1 = after_add(e0, dot_text());
    assert(e1 =~= seq![(0u32, dot_text())]);
    assert(dot_text() != dotdot_text()) by {
        assert(dot_text().len() != dotdot_text().len());
    }
    let e2 = after_add(e1, dotdot_text());
    assert(e2 =~= seq![(0u32, dot_text()), (2u32, dotdot_text())]);
    let e3 = after_add(e2, t.root_name());
    assert(next_offset(e2) == 5);
    assert(e3 =~= seq![(0u32, dot_text()), (2u32, dotdot_text()), (5u32, t.root_name())]);
}

/// The table with `.` and `..` alone: what the table with the name of the
/// root is where the root is named `.` or `..`.
pub proof fn lemma_base_dots(t: Tree)
    requires
        t.root_name() == dot_text() || t.root_name() == dotdot_text(),
    ensures
        t.base_table() == seq![(0u32, dot_text()), (2u32, dotdot_text())],
        text_len(dot_text()) == 1,
        text_len(dotdot_text()) == 2,
{
    lemma_dot_bytes();
    reveal_with_fuel(find_from, 4);
    let e0 = Seq::<(u32, Seq<char>)>::empty();
    let e1 = after_add(e0, dot_text());
    assert(e1 =~= seq![(0u32, dot_text())]);
    assert(dot_text() != dotdot_text()) by {
        assert(dot_text().len() != dotdot_text().len());
    }
    let e2 = after_add(e1, dotdot_text());
    assert(e2 =~= seq![(0u32, dot_text()), (2u32, dotdot_text())]);
    assert(find(e2, t.root_name()) is Some);
    assert(after_add(e2, t.root_name()) == e2);
}

/// The table with `.`, `..` and the name of a root that is clean is
/// packed, and its texts are clean. It holds the name of the root where
/// the root's name offset says: at 0 or 2 for a root named `.` or `..`,
/// else as its third entry at 5.
pub proof fn lemma_base_table(t: Tree)
    requires
        clean_text(t.root_name()),
    ensures
        t.base_table().len() >= 2,
        t.base_table()[0] == (0u32, dot_text()),
        t.base_table()[1] == (2u32, dotdot_text()),
        t.root_name() != dot_text() && t.root_name() != dotdot_text() ==> t.base_table() == seq![
            (0u32, dot_text()),
            (2u32, dotdot_text()),
            (5u32, t.root_name()),
        ],
        t.root_name() == dot_text() || t.root_name() == dotdot_text() ==> t.base_table() == seq![
            (0u32, dot_text()),
            (2u32, dotdot_text()),
        ],
        packed(t.base_table()),
        clean(t.base_table()),
{
    if t.root_name() == dot_text() || t.root_name() == dotdot_text() {
        lemma_base_dots(t);
    } else {
        lemma_base_entries(t);
    }
    lemma_dot_bytes();
    let base = t.base_table();
    assert forall|i: int| 0 <= i < base.len() - 1 implies #[trigger] base[i + 1].0 == base[i].0 + text_len(
        base[i].1,
    ) + 1 by {
        assert(i == 0 || i == 1);
    }
    assert(clean_text(dot_text())) by {
        assert(encode_utf8(dot_text()) == dot());
    }
    assert(clean_text(dotdot_text())) by {
        assert(encode_utf8(dotdot_text()) == dotdot());
    }
}

/// The name of every entry of a walk that is neither `.` nor `..` is in
/// the table to which the names of the walk were added.
pub proof fn lemma_walk_name_found(t: Tree, es: Seq<(u32, Seq<char>)>, walk: Seq<usize>, k: int)
    requires
        0 <= k < walk.len(),
        !is_dot_name(t.entries[walk[k] as int].name_bytes()),
    ensures
        find(t.add_names(es, walk), t.entries[walk[k] as int].name) is Some,
    decreases walk.len(),
{
    let shorter = walk.drop_last();
    let before = t.add_names(es, shorter);
    let last = t.entries[walk.last() as int];
    let name = t.entries[walk[k] as int].name;
    if k == walk.len() - 1 {
        if find(before, name) is None {
            lemma_find_pushed(before, name, next_offset(before) as u32);
        }
    } else {
        assert(shorter[k] == walk[k]);
        lemma_walk_name_found(t, es, shorter, k);
        if !is_dot_name(last.name_bytes()) {
            lemma_find_stable(before, last.name, name);
        }
    }
}

/// A text whose bytes are those of `.` is `.`, and one whose bytes are
/// those of `..` is `..`.
pub proof fn lemma_dot_names(text: Seq<char>)
    ensures
        encode_utf8(text) == dot() ==> text == dot_text(),
        encode_utf8(text) == dotdot() ==> text == dotdot_text(),
{
    lemma_dot_bytes();
    lemma_encode_injective(text, dot_text());
    lemma_encode_injective(text, dotdot_text());
}

/// In a table that starts with `.` at 0 and `..` at 2 and whose offsets
/// grow, the name of an entry stands at the offset that the entry is given,
/// provided that the table holds the name or the name is `.` or `..`.
pub proof fn lemma_name_off_lookup(t: Tree, names: Seq<(u32, Seq<char>)>, c: usize)
    requires
        increasing(names),
        names.len() >= 2,
        names[0] == (0u32, dot_text()),
        names[1] == (2u32, dotdot_text()),
        is_dot_name(t.entries[c as int].name_bytes()) || find(names, t.entries[c as int].name) is Some,
    ensures
        lookup(names, t.name_off_in(names, c)) == Some(t.entries[c as int].name),
{
    let file = t.entries[c as int];
    lemma_dot_names(file.name);
    if file.name_bytes() == dot() {
        lemma_lookup_at(names, 0, 0);
    } else if file.name_bytes() == dotdot() {
        lemma_lookup_at(names, 1, 0);
    } else {
        lemma_lookup_found(names, file.name);
    }
}

/// Whether the entry `c` is a link to the directory `f`.
pub open spec fn links_to(t: Tree, c: usize, f: usize) -> bool {
    t.is_sub_link(c) && t.entries[c as int].folder == Some(f)
}

/// The name offset that a directory is given is that of one of the links of
/// the walk that lead to it, if there is one.
pub proof fn lemma_dir_name_off(t: Tree, names: Seq<(u32, Seq<char>)>, walk: Seq<usize>, f: usize, upto: int)
    requires
        0 <= upto <= walk.len(),
        exists|k: int| 0 <= k < upto && links_to(t, #[trigger] walk[k], f),
    ensures
        exists|k: int|
            0 <= k < upto && links_to(t, #[trigger] walk[k], f) && t.dir_name_off(names, walk, f, upto)
                == t.name_off_in(names, walk[k]),
    decreases upto,
{
    if links_to(t, walk[upto - 1], f) {
        assert(t.dir_name_off(names, walk, f, upto) == t.name_off_in(names, walk[upto - 1]));
    } else {
        let k0 = choose|k: int| 0 <= k < upto && links_to(t, #[trigger] walk[k], f);
        assert(k0 < upto - 1);
        lemma_dir_name_off(t, names, walk, f, upto - 1);
        let k = choose|k: int|
            0 <= k < upto - 1 && links_to(t, #[trigger] walk[k], f) && t.dir_name_off(
                names,
                walk,
                f,
                upto - 1,
            ) == t.name_off_in(names, walk[k]);
        assert(0 <= k < upto && links_to(t, walk[k], f));
    }
}

/// The name offset of a directory to which no link of the walk leads is
/// that of its own name for the root, and what it was for another
/// directory.
pub proof fn lemma_dir_name_off_base(t: Tree, names: Seq<(u32, Seq<char>)>, walk: Seq<usize>, f: usize, upto: int)
    requires
        0 <= upto <= walk.len(),
        forall|k: int| 0 <= k < upto ==> !links_to(t, #[trigger] walk[k], f),
    ensures
        t.dir_name_off(names, walk, f, upto) == (if f == 0 {
            t.root_off()
        } else {
            t.dirs[f as int].node.name_off
        }),
    decreases upto,
{
    if upto > 0 {
        assert(!links_to(t, walk[upto - 1], f));
        lemma_dir_name_off_base(t, names, walk, f, upto - 1);
    }
}

} // verus!
