//! What sorting establishes: a file table that holds the children of every
//! directory as a range, and directory entries that name their directory.

use vstd::prelude::*;
use crate::inverse::settled_entry;
use crate::laws::{lemma_range_in_table, lemma_sorted_dir};
use crate::nodes::file::FileModel;
use crate::reach::{is_child, lemma_dirs_from_valid};
use crate::roundtrip::links_to;
use crate::tree::Tree;
use crate::walk::lemma_filter_members;

verus! {

/// An entry that is a directory entry without payload, or an entry that
/// stands for no directory: if that is a file, its size is that of its
/// payload, and if it is no file, it has no payload.
pub open spec fn kind_ok(file: FileModel) -> bool {
    if file.is_dir() {
        !file.is_file() && file.data.len() == 0
    } else {
        &&& file.folder is None
        &&& file.is_file() ==> file.node.data_size == file.data.len()
        &&& !file.is_file() ==> file.data.len() == 0
    }
}

impl Tree {
    /// Every child of a directory is a directory entry without payload, a
    /// file whose size is that of its payload, or an entry that is neither
    /// and has no payload.
    pub open spec fn kinds_ok(self) -> bool {
        forall|d: int, k: int|
            0 <= d < self.dirs.len() && 0 <= k < self.dirs[d].children.len() ==> kind_ok(
                self.entries[#[trigger] self.dirs[d].children[k] as int],
            )
    }

    /// The walk from the root lists every directory.
    pub open spec fn all_listed(self) -> bool {
        forall|d: usize| d < self.dirs.len() ==> #[trigger] self.dir_order().contains(d)
    }
}

/// Every directory of the order exists.
pub proof fn lemma_order_valid(s: Tree)
    requires
        s.linked(),
    ensures
        forall|k: int| 0 <= k < s.dir_order().len() ==> #[trigger] s.dir_order()[k] < s.dirs.len(),
{
    if s.dirs.len() > 0 {
        lemma_dirs_from_valid(s, 0, 0, s.dirs.len());
        let listed = s.dirs_from(0, 0, s.dirs.len());
        assert forall|k: int| 0 <= k < s.dir_order().len() implies #[trigger] s.dir_order()[k]
            < s.dirs.len() by {
            if k > 0 {
                assert(s.dir_order()[k] == listed[k - 1]);
            }
        }
    }
}

/// Every entry of the table of an order is a child, as the table lists
/// them, of a directory of the order, and stands in the table where the
/// children of that directory stand.
pub proof fn lemma_table_member(s: Tree, order: Seq<usize>, j: int)
    requires
        0 <= j < s.table_of(order).len(),
    ensures
        exists|k: int, i: int|
            0 <= k < order.len() && 0 <= i < s.sorted_children(order[k]).len() && j == s.table_of(
                order.take(k),
            ).len() + i && #[trigger] s.sorted_children(order[k])[i] == s.table_of(order)[j],
    decreases order.len(),
{
    let shorter = order.drop_last();
    let before = s.table_of(shorter);
    let last = s.sorted_children(order.last());
    assert(s.table_of(order) == before + last);
    if j < before.len() {
        lemma_table_member(s, shorter, j);
        let (k, i) = choose|k: int, i: int|
            0 <= k < shorter.len() && 0 <= i < s.sorted_children(shorter[k]).len() && j == s.table_of(
                shorter.take(k),
            ).len() + i && #[trigger] s.sorted_children(shorter[k])[i] == before[j];
        assert(shorter.take(k) =~= order.take(k));
        assert(order[k] == shorter[k]);
        assert(s.sorted_children(order[k])[i] == s.table_of(order)[j]);
    } else {
        let k = order.len() - 1;
        let i = j - before.len();
        assert(order.take(k) =~= shorter);
        assert(s.sorted_children(order[k])[i] == s.table_of(order)[j]);
    }
}

/// The children of a directory as the table lists them are its children.
pub proof fn lemma_sorted_children_are_children(s: Tree, d: usize, i: int)
    requires
        0 <= i < s.sorted_children(d).len(),
    ensures
        s.dirs[d as int].children.contains(s.sorted_children(d)[i]),
{
    let children = s.dirs[d as int].children;
    let plain = children.filter(s.no_shortcut());
    lemma_filter_members(children, s.no_shortcut());
    lemma_filter_members(children, s.shortcut());
    if i < plain.len() {
        assert(s.sorted_children(d)[i] == plain[i]);
    } else {
        assert(s.sorted_children(d)[i] == children.filter(s.shortcut())[i - plain.len()]);
    }
}

/// After sorting, the children of every directory that the walk lists are
/// its range of the file table.
pub proof fn lemma_sorted_ranged(s: Tree)
    requires
        s.linked(),
        s.tree_shaped(),
        s.sortable_size(),
        s.all_listed(),
        s.dirs.len() <= usize::MAX,
    ensures
        s.sorted().ranged(),
{
    let t = s.sorted();
    let order = s.dir_order();
    lemma_order_valid(s);
    assert forall|d: int| 0 <= d < t.dirs.len() implies ({
        let dir = #[trigger] t.dirs[d];
        &&& dir.node.file_off + dir.children.len() <= t.table.len()
        &&& forall|k: int|
            0 <= k < dir.children.len() ==> t.table[dir.node.file_off + k] == #[trigger] dir.children[k]
    }) by {
        let x = d as usize;
        assert(order.contains(x));
        let k = order.index_of(x);
        lemma_sorted_dir(s, k);
        lemma_range_in_table(s, order, k);
        let dir = t.dirs[d];
        let first = s.table_of(order.take(k)).len() as int;
        assert(s.range_start(k) <= 0xFFFF_FFFF);
        assert(dir.node.file_off == first);
        assert forall|i: int| 0 <= i < dir.children.len() implies t.table[dir.node.file_off + i]
            == #[trigger] dir.children[i] by {
            assert(t.table.subrange(first, first + dir.children.len())[i] == dir.children[i]);
        }
    }
}

/// The children of the directory at position `k` of an order end in the
/// sorted table where those of a later directory start, or before.
pub proof fn lemma_starts_grow(s: Tree, k: int, m: int)
    requires
        0 <= k < m < s.dir_order().len(),
    ensures
        s.range_start(k) + s.range_count(k) <= s.range_start(m),
{
    let order = s.dir_order();
    lemma_range_in_table(s, order, k);
    crate::walk::lemma_table_prefix(s, order.take(m), k + 1);
    assert(order.take(m).take(k + 1) =~= order.take(k + 1));
}

/// After sorting, the ranges of two directories share no position of the
/// file table.
pub proof fn lemma_sorted_apart(s: Tree)
    requires
        s.linked(),
        s.tree_shaped(),
        s.sortable_size(),
        s.all_listed(),
        s.dirs.len() <= usize::MAX,
    ensures
        s.sorted().ranges_apart(),
{
    let t = s.sorted();
    let order = s.dir_order();
    lemma_order_valid(s);
    assert forall|d: int, e: int| 0 <= d < t.dirs.len() && 0 <= e < t.dirs.len() && d != e implies #[trigger] t.apart(
        d,
        e,
    ) by {
        assert(order.contains(d as usize));
        assert(order.contains(e as usize));
        let k = order.index_of(d as usize);
        let m = order.index_of(e as usize);
        lemma_sorted_dir(s, k);
        lemma_sorted_dir(s, m);
        assert(s.range_start(k) <= 0xFFFF_FFFF);
        assert(s.range_start(m) <= 0xFFFF_FFFF);
        assert(t.dirs[d].children.len() == s.range_count(k));
        assert(t.dirs[e].children.len() == s.range_count(m));
        if k < m {
            lemma_starts_grow(s, k, m);
        } else {
            lemma_starts_grow(s, m, k);
        }
    }
}

/// What sorting leaves of an entry as it was: all but its id and its data
/// field.
pub proof fn lemma_sorted_entry_kept(s: Tree, c: int)
    requires
        0 <= c < s.entries.len(),
        s.entries.len() <= usize::MAX,
    ensures
        s.sorted().entries.len() == s.entries.len(),
        s.sorted().entries[c].attr == s.entries[c].attr,
        s.sorted().entries[c].name == s.entries[c].name,
        s.sorted().entries[c].folder == s.entries[c].folder,
        s.sorted().entries[c].parent == s.entries[c].parent,
        s.sorted().entries[c].data == s.entries[c].data,
        s.sorted().entries[c].name_off == s.entries[c].name_off,
        s.sorted().entries[c].node.data_size == s.entries[c].node.data_size,
        s.sorted_table().contains(c as usize) && s.entries[c].is_dir() ==> s.sorted().entries[c].node.data
            == (match s.entries[c].folder {
            Some(f) => f as u32,
            None => crate::nodes::file::NO_FOLDER,
        }),
{
}

/// What sorting makes of a directory that the walk lists: its children as
/// the table lists them, under its name.
pub proof fn lemma_sorted_dir_kept(s: Tree, d: int)
    requires
        0 <= d < s.dirs.len(),
        s.dirs.len() <= usize::MAX,
        s.dir_order().contains(d as usize),
    ensures
        s.sorted().dirs.len() == s.dirs.len(),
        s.sorted().dirs[d].children == s.sorted_children(d as usize),
        s.sorted().dirs[d].name == s.dirs[d].name,
        s.sorted().table == s.sorted_table(),
{
}

/// After sorting, every child of a directory that the walk lists is an
/// entry that was a child of the directory before, and stands in the file
/// table.
pub proof fn lemma_sorted_child(s: Tree, d: int, i: int)
    requires
        s.linked(),
        s.tree_shaped(),
        s.all_listed(),
        s.dirs.len() <= usize::MAX,
        0 <= d < s.dirs.len(),
        0 <= i < s.sorted().dirs[d].children.len(),
    ensures
        s.sorted().dirs[d].children[i] < s.entries.len(),
        s.dirs[d].children.contains(s.sorted().dirs[d].children[i]),
        s.sorted_table().contains(s.sorted().dirs[d].children[i]),
{
    let order = s.dir_order();
    let x = d as usize;
    assert(order.contains(x));
    lemma_sorted_dir_kept(s, d);
    lemma_sorted_children_are_children(s, x, i);
    let c = s.sorted_children(x)[i];
    let q = s.dirs[d].children.index_of(c);
    assert(s.dirs[d].children[q] < s.entries.len());
    let k = order.index_of(x);
    lemma_range_in_table(s, order, k);
    let first = s.table_of(order.take(k)).len() as int;
    assert(s.sorted_table().subrange(first, first + s.sorted_children(x).len())[i] == c);
    assert(s.sorted_table()[first + i] == c);
}

/// After sorting, every child of a directory is a directory entry that
/// names its directory, a file whose size is that of its payload, or an
/// entry that is neither and has no payload, if every child was of one of
/// these kinds before.
pub proof fn lemma_sorted_settled(s: Tree)
    requires
        s.linked(),
        s.tree_shaped(),
        s.sortable_size(),
        s.all_listed(),
        s.kinds_ok(),
        s.dirs.len() <= usize::MAX,
        s.entries.len() <= usize::MAX,
    ensures
        s.sorted().children_settled(),
{
    let t = s.sorted();
    assert forall|d: int, i: int| 0 <= d < t.dirs.len() && 0 <= i < t.dirs[d].children.len() implies settled_entry(
        t.entries[#[trigger] t.dirs[d].children[i] as int],
    ) by {
        lemma_sorted_child(s, d, i);
        let c = t.dirs[d].children[i];
        lemma_sorted_entry_kept(s, c as int);
        let q = s.dirs[d].children.index_of(c);
        assert(kind_ok(s.entries[s.dirs[d].children[q] as int]));
        if s.entries[c as int].folder is Some {
            assert(s.entries[c as int].folder.unwrap() < s.dirs.len());
        }
        assert(t.entries[c as int].is_dir() == s.entries[c as int].is_dir());
        assert(t.entries[c as int].is_file() == s.entries[c as int].is_file());
    }
}

/// After sorting, every entry of the file table is a child of a directory.
pub proof fn lemma_sorted_table_children(s: Tree)
    requires
        s.linked(),
        s.dirs.len() <= usize::MAX,
    ensures
        forall|j: int| 0 <= j < s.sorted().table.len() ==> is_child(s.sorted(), #[trigger] s.sorted().table[j]),
{
    let t = s.sorted();
    let order = s.dir_order();
    lemma_order_valid(s);
    assert forall|j: int| 0 <= j < t.table.len() implies is_child(t, #[trigger] t.table[j]) by {
        lemma_table_member(s, order, j);
        let (k, i) = choose|k: int, i: int|
            0 <= k < order.len() && 0 <= i < s.sorted_children(order[k]).len() && j == s.table_of(
                order.take(k),
            ).len() + i && #[trigger] s.sorted_children(order[k])[i] == s.table_of(order)[j];
        let d = order[k] as int;
        assert(order.contains(order[k]));
        lemma_sorted_dir_kept(s, d);
        assert(t.dirs[d].children[i] == t.table[j]);
    }
}

/// After sorting, every link bears the name of its directory if every
/// link did before.
pub proof fn lemma_sorted_names(s: Tree)
    requires
        s.linked(),
        s.tree_shaped(),
        s.all_listed(),
        s.links_named(),
        s.dirs.len() <= usize::MAX,
        s.entries.len() <= usize::MAX,
    ensures
        s.sorted().links_named(),
{
    let t = s.sorted();
    assert forall|d: int, i: int, f: usize|
        0 <= d < t.dirs.len() && 0 <= i < t.dirs[d].children.len() && #[trigger] links_to(
            t,
            t.dirs[d].children[i],
            f,
        ) && f < t.dirs.len() implies t.entries[t.dirs[d].children[i] as int].name == t.dirs[f as int].name by {
        lemma_sorted_child(s, d, i);
        let c = t.dirs[d].children[i];
        lemma_sorted_entry_kept(s, c as int);
        let q = s.dirs[d].children.index_of(c);
        assert(s.dir_order().contains(f));
        lemma_sorted_dir_kept(s, f as int);
        assert(links_to(s, s.dirs[d].children[q], f));
    }
}

} // verus!
