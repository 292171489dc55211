//! Writing the parts of an archive.

use vstd::prelude::*;
use crate::archive::{dir_models, file_models};
use crate::bytes::{Endian, pad_to_32, push_bytes, push_zeros};
use crate::enums::JKRPreloadType;
use crate::image::{ARAM, DVD, load_group, MRAM, padded};
use crate::nodes::directory::Directory;
use crate::nodes::file::{File, FileModel, Node};
use crate::tree::Tree;
use crate::walk::lemma_filter_step;

verus! {

/// The group of payloads that the entry belongs to.
pub fn group_of(file: &File) -> (g: u8)
    ensures
        g == load_group(file@),
{
    if file.is_dir() {
        0
    } else {
        match file.preload_type() {
            JKRPreloadType::MRAM => MRAM,
            JKRPreloadType::ARAM => ARAM,
            JKRPreloadType::DVD => DVD,
            JKRPreloadType::NONE => DVD,
        }
    }
}

/// The payloads of two lists take as much room together as one after the other.
pub proof fn lemma_span_add(t: Tree, a: Seq<usize>, b: Seq<usize>)
    ensures
        t.span(a + b) == t.span(a) + t.span(b),
        t.span(a) >= 0,
        t.span(b) >= 0,
    decreases b.len(),
{
    lemma_span_nonneg(t, a);
    lemma_span_nonneg(t, b);
    if b.len() == 0 {
        assert(a + b =~= a);
    } else {
        lemma_span_add(t, a, b.drop_last());
        assert((a + b).drop_last() =~= a + b.drop_last());
    }
}

/// A length is not negative.
pub proof fn lemma_span_nonneg(t: Tree, a: Seq<usize>)
    ensures
        t.span(a) >= 0,
    decreases a.len(),
{
    if a.len() > 0 {
        lemma_span_nonneg(t, a.drop_last());
    }
}

/// The payloads of a list take as many bytes as their lengths say.
pub proof fn lemma_payload_len(t: Tree, a: Seq<usize>)
    ensures
        t.payload_bytes(a).len() == t.span(a),
    decreases a.len(),
{
    if a.len() > 0 {
        lemma_payload_len(t, a.drop_last());
    }
}

/// The records of `n` directories take 16 bytes each.
pub proof fn lemma_dir_records_len(t: Tree, endian: Endian, n: int)
    requires
        0 <= n,
    ensures
        t.dir_records(endian, n).len() == 16 * n,
    decreases n,
{
    if n > 0 {
        lemma_dir_records_len(t, endian, n - 1);
    }
}

/// The records of `n` entries take 20 bytes each.
pub proof fn lemma_file_records_len(t: Tree, endian: Endian, n: int)
    requires
        0 <= n,
    ensures
        t.file_records(endian, n).len() == 20 * n,
    decreases n,
{
    if n > 0 {
        lemma_file_records_len(t, endian, n - 1);
    }
}

/// Placing the payloads changes no link.
pub proof fn lemma_placed_linked(t: Tree)
    requires
        t.linked(),
    ensures
        t.placed().linked(),
{
    let u = t.placed();
    assert forall|d: int, j: int|
        0 <= d < u.dirs.len() && 0 <= j < u.dirs[d].children.len() implies #[trigger] u.dirs[d].children[j]
        < u.entries.len() by {
        assert(t.dirs[d].children[j] < t.entries.len());
    }
    assert forall|i: int| 0 <= i < u.entries.len() && (#[trigger] u.entries[i]).folder is Some implies u.entries[i].folder.unwrap()
        < u.dirs.len() by {
        assert(t.entries[i].folder is Some);
    }
    assert forall|i: int| 0 <= i < u.entries.len() && (#[trigger] u.entries[i]).parent is Some implies u.entries[i].parent.unwrap()
        < u.dirs.len() by {
        assert(t.entries[i].parent is Some);
    }
    assert forall|k: int| 0 <= k < u.table.len() implies #[trigger] u.table[k] < u.entries.len() by {
        assert(t.table[k] < t.entries.len());
    }
}

/// Placing the payloads changes not which payloads are written.
pub proof fn lemma_placed_order(t: Tree)
    ensures
        t.placed().group(MRAM) == t.group(MRAM),
        t.placed().group(ARAM) == t.group(ARAM),
        t.placed().group(DVD) == t.group(DVD),
        t.placed().payload_order() == t.payload_order(),
{
    let u = t.placed();
    assert forall|g: u8| #[trigger] u.in_group(g) == t.in_group(g) by {
        assert forall|e: usize| #[trigger] u.in_group(g)(e) == t.in_group(g)(e) by {
            if e < t.entries.len() {
                assert(u.entries[e as int].attr == t.entries[e as int].attr);
            }
        }
        assert(u.in_group(g) =~= t.in_group(g));
    }
}

/// Placing the payloads changes not how long they are.
pub proof fn lemma_placed_span(t: Tree, list: Seq<usize>)
    requires
        forall|k: int| 0 <= k < list.len() ==> #[trigger] list[k] < t.entries.len(),
    ensures
        t.placed().span(list) == t.span(list),
        t.placed().payload_bytes(list) == t.payload_bytes(list),
    decreases list.len(),
{
    if list.len() > 0 {
        lemma_placed_span(t, list.drop_last());
        let e = list.last();
        assert(t.placed().entries[e as int].data == t.entries[e as int].data);
    }
}

/// Appends to `out` the entries of the file table whose payload belongs to
/// the group `g`.
pub(crate) fn pick_group(nodes: &Vec<File>, table: &Vec<usize>, g: u8, out: &mut Vec<usize>, Ghost(t): Ghost<Tree>)
    requires
        t.entries == file_models(nodes@),
        t.table == table@,
        t.linked(),
        forall|k: int| 0 <= k < old(out)@.len() ==> #[trigger] old(out)@[k] < nodes@.len(),
    ensures
        final(out)@ == old(out)@ + t.group(g),
        forall|k: int| 0 <= k < final(out)@.len() ==> #[trigger] final(out)@[k] < nodes@.len(),
{
    let mut k: usize = 0;
    proof {
        reveal(Seq::filter);
        assert(table@.take(0) =~= Seq::<usize>::empty());
        assert(out@ =~= old(out)@ + table@.take(0).filter(t.in_group(g)));
    }
    while k < table.len()
        invariant
            k <= table@.len(),
            t.entries == file_models(nodes@),
            t.table == table@,
            t.linked(),
            out@ == old(out)@ + table@.take(k as int).filter(t.in_group(g)),
            forall|k: int| 0 <= k < out@.len() ==> #[trigger] out@[k] < nodes@.len(),
        decreases table@.len() - k,
    {
        let e = table[k];
        assert(e < nodes@.len());
        assert(nodes@[e as int]@ == t.entries[e as int]);
        proof {
            lemma_filter_step(table@, k as int, t.in_group(g));
        }
        if group_of(&nodes[e]) == g {
            out.push(e);
            assert(out@ =~= old(out)@ + table@.take(k as int + 1).filter(t.in_group(g)));
        }
        k += 1;
    }
    assert(table@.take(table@.len() as int) =~= table@);
}

/// The length that the payloads of `list` take, if it fits 32 bits.
pub(crate) fn span_of(nodes: &Vec<File>, list: &Vec<usize>, Ghost(t): Ghost<Tree>) -> (res: Option<u32>)
    requires
        forall|x: int| 0 <= x < nodes@.len() ==> (#[trigger] nodes@[x])@.data == t.entries[x].data,
        nodes@.len() == t.entries.len(),
        forall|k: int| 0 <= k < list@.len() ==> #[trigger] list@[k] < nodes@.len(),
    ensures
        match res {
            Some(total) => total == t.span(list@),
            None => t.span(list@) > u32::MAX,
        },
{
    let mut total: u64 = 0;
    let mut k: usize = 0;
    proof {
        assert(list@.take(0) =~= Seq::<usize>::empty());
    }
    while k < list.len()
        invariant
            k <= list@.len(),
            forall|x: int| 0 <= x < nodes@.len() ==> (#[trigger] nodes@[x])@.data == t.entries[x].data,
            nodes@.len() == t.entries.len(),
            forall|k: int| 0 <= k < list@.len() ==> #[trigger] list@[k] < nodes@.len(),
            total == t.span(list@.take(k as int)),
            total <= u32::MAX,
        decreases list@.len() - k,
    {
        let e = list[k];
        let len: usize = nodes[e].data.len();
        proof {
            assert(list@.take(k as int + 1).drop_last() =~= list@.take(k as int));
            assert(list@ =~= list@.take(k as int + 1) + list@.skip(k as int + 1));
            lemma_span_add(t, list@.take(k as int + 1), list@.skip(k as int + 1));
            assert(nodes@[e as int]@.data == t.entries[e as int].data);
        }
        if len as u64 > 0xFFFF_FFFF {
            return None;
        }
        total = total + (len as u64 + 31) / 32 * 32;
        if total > 0xFFFF_FFFF {
            return None;
        }
        k += 1;
    }
    assert(list@.take(list@.len() as int) =~= list@);
    Some(total as u32)
}

/// Tells every entry of `list` where its payload starts.
pub(crate) fn place(nodes: &mut Vec<File>, list: &Vec<usize>, Ghost(t): Ghost<Tree>)
    requires
        t.entries == file_models(old(nodes)@),
        list@ == t.payload_order(),
        forall|k: int| 0 <= k < list@.len() ==> #[trigger] list@[k] < old(nodes)@.len(),
        t.span(list@) <= u32::MAX,
    ensures
        file_models(final(nodes)@) == t.placed().entries,
{
    let n = nodes.len();
    let mut at: u32 = 0;
    let mut k: usize = 0;
    proof {
        assert(list@.take(0) =~= Seq::<usize>::empty());
        assert forall|x: usize| x < n implies (#[trigger] nodes@[x as int])@ == (FileModel {
            node: Node { data: t.placed_data(list@, x, 0), ..t.entries[x as int].node },
            ..t.entries[x as int]
        }) by {}
    }
    while k < list.len()
        invariant
            k <= list@.len(),
            n == nodes@.len(),
            n == t.entries.len(),
            list@ == t.payload_order(),
            forall|k: int| 0 <= k < list@.len() ==> #[trigger] list@[k] < n,
            t.span(list@) <= u32::MAX,
            at == t.span(list@.take(k as int)),
            forall|x: usize|
                x < n ==> (#[trigger] nodes@[x as int])@ == (FileModel {
                    node: Node { data: t.placed_data(list@, x, k as int), ..t.entries[x as int].node },
                    ..t.entries[x as int]
                }),
        decreases list@.len() - k,
    {
        let e = list[k];
        let ghost before = nodes@;
        let len: usize = nodes[e].data.len();
        proof {
            assert(list@.take(k as int + 1).drop_last() =~= list@.take(k as int));
            assert(list@ =~= list@.take(k as int + 1) + list@.skip(k as int + 1));
            lemma_span_add(t, list@.take(k as int + 1), list@.skip(k as int + 1));
            lemma_span_nonneg(t, list@.take(k as int));
            assert(before[e as int]@.data == t.entries[e as int].data);
        }
        nodes[e].node.data = at;
        at = (at as u64 + (len as u64 + 31) / 32 * 32) as u32;
        proof {
            assert forall|x: usize| x < n implies (#[trigger] nodes@[x as int])@ == (FileModel {
                node: Node { data: t.placed_data(list@, x, k as int + 1), ..t.entries[x as int].node },
                ..t.entries[x as int]
            }) by {
                if x != e {
                    assert(nodes@[x as int] == before[x as int]);
                }
            }
        }
        k += 1;
    }
    proof {
        assert forall|x: int| 0 <= x < n implies file_models(nodes@)[x] == t.placed().entries[x] by {
            assert(nodes@[(x as usize) as int]@ == file_models(nodes@)[x]);
        }
        assert(file_models(nodes@) =~= t.placed().entries);
    }
}

/// Appends the records of the directories. Stops with `false` at a
/// directory with more children than a record can count.
pub(crate) fn emit_dirs(folders: &Vec<Directory>, endian: Endian, out: &mut Vec<u8>, Ghost(t): Ghost<Tree>) -> (ok:
    bool)
    requires
        t.dirs == dir_models(folders@),
    ensures
        ok <==> forall|d: int|
            0 <= d < t.dirs.len() ==> (#[trigger] t.dirs[d]).children.len()
                <= crate::nodes::directory::MAX_CHILDREN,
        ok ==> final(out)@ == old(out)@ + t.dir_records(endian, t.dirs.len() as int),
{
    let mut d: usize = 0;
    while d < folders.len()
        invariant
            d <= folders@.len(),
            t.dirs == dir_models(folders@),
            out@ == old(out)@ + t.dir_records(endian, d as int),
            forall|x: int|
                0 <= x < d ==> (#[trigger] t.dirs[x]).children.len()
                    <= crate::nodes::directory::MAX_CHILDREN,
        decreases folders@.len() - d,
    {
        assert(folders@[d as int]@ == t.dirs[d as int]);
        match folders[d].write(out, endian) {
            Ok(()) => {},
            Err(_) => {
                return false;
            },
        }
        assert(out@ =~= old(out)@ + t.dir_records(endian, d as int + 1));
        d += 1;
    }
    true
}

/// Appends the records of the entries of the file table, each followed by
/// four zero bytes. Stops with `false` at an entry whose name starts behind
/// the 24-bit range.
pub(crate) fn emit_files(
    nodes: &Vec<File>,
    table: &Vec<usize>,
    endian: Endian,
    out: &mut Vec<u8>,
    Ghost(t): Ghost<Tree>,
) -> (ok: bool)
    requires
        t.entries == file_models(nodes@),
        t.table == table@,
        t.linked(),
    ensures
        ok <==> forall|k: int|
            0 <= k < t.table.len() ==> t.entries[#[trigger] t.table[k] as int].name_off
                < crate::nodes::file::NAME_OFF_LIMIT,
        ok ==> final(out)@ == old(out)@ + t.file_records(endian, t.table.len() as int),
{
    let mut k: usize = 0;
    while k < table.len()
        invariant
            k <= table@.len(),
            t.entries == file_models(nodes@),
            t.table == table@,
            t.linked(),
            out@ == old(out)@ + t.file_records(endian, k as int),
            forall|x: int|
                0 <= x < k ==> t.entries[#[trigger] t.table[x] as int].name_off
                    < crate::nodes::file::NAME_OFF_LIMIT,
        decreases table@.len() - k,
    {
        let e = table[k];
        assert(e == t.table[k as int]);
        assert(e < nodes@.len());
        assert(nodes@[e as int]@ == t.entries[e as int]);
        match nodes[e].write(out, endian) {
            Ok(()) => {},
            Err(_) => {
                return false;
            },
        }
        push_zeros(out, 4);
        assert(out@ =~= old(out)@ + t.file_records(endian, k as int + 1));
        k += 1;
    }
    true
}

/// Appends the payloads of `list`, each followed by zero bytes up to a
/// multiple of 32.
pub(crate) fn emit_payloads(nodes: &Vec<File>, list: &Vec<usize>, out: &mut Vec<u8>, Ghost(t): Ghost<Tree>)
    requires
        forall|x: int| 0 <= x < nodes@.len() ==> (#[trigger] nodes@[x])@.data == t.entries[x].data,
        nodes@.len() == t.entries.len(),
        forall|k: int| 0 <= k < list@.len() ==> #[trigger] list@[k] < nodes@.len(),
    ensures
        final(out)@ == old(out)@ + t.payload_bytes(list@),
{
    let mut k: usize = 0;
    proof {
        assert(list@.take(0) =~= Seq::<usize>::empty());
    }
    while k < list.len()
        invariant
            k <= list@.len(),
            forall|x: int| 0 <= x < nodes@.len() ==> (#[trigger] nodes@[x])@.data == t.entries[x].data,
            nodes@.len() == t.entries.len(),
            forall|k: int| 0 <= k < list@.len() ==> #[trigger] list@[k] < nodes@.len(),
            out@ == old(out)@ + t.payload_bytes(list@.take(k as int)),
        decreases list@.len() - k,
    {
        let e = list[k];
        let mut piece: Vec<u8> = Vec::new();
        push_bytes(&mut piece, nodes[e].data.as_slice());
        pad_to_32(&mut piece);
        proof {
            assert(nodes@[e as int]@.data == t.entries[e as int].data);
            assert(piece@ =~= padded(t.entries[e as int].data));
            assert(list@.take(k as int + 1).drop_last() =~= list@.take(k as int));
        }
        push_bytes(out, piece.as_slice());
        assert(out@ =~= old(out)@ + t.payload_bytes(list@.take(k as int + 1)));
        k += 1;
    }
    assert(list@.take(list@.len() as int) =~= list@);
}

} // verus!
