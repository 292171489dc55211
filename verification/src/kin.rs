//! The parent of an entry: the directory that lists it. What grows by
//! directories and files keeps every entry with its parent, sorting does
//! not part them, and reading finds the parent again.

use vstd::prelude::*;
use crate::grow::{lemma_file_child, lemma_folder_child, lemma_with_file_parts, lemma_with_folder_parts};
use crate::header::DataHeader;
use crate::inverse::same_tree;
use crate::nodes::directory::new_dir;
use crate::nodes::file::{FileAttr, new_file};
use crate::reach::{
    dirs_below, is_child, lemma_children_walked, lemma_dirs_from_valid, lemma_links_listed, lemma_prefix_no_dup,
    lemma_walk_step,
};
use crate::walk::lemma_bounded_len;
use crate::laws::lemma_sorted_dir;
use crate::settle::{lemma_sorted_child, lemma_sorted_entry_kept, lemma_starts_grow};
use crate::sort::lemma_index_of_unique;
use crate::tree::{dot_text, dotdot_text, Tree};

verus! {

impl Tree {
    /// Every child of a directory has that directory as its parent.
    pub open spec fn parents_right(self) -> bool {
        forall|d: int, k: int|
            0 <= d < self.dirs.len() && 0 <= k < self.dirs[d].children.len() ==> self.entries[
                #[trigger] self.dirs[d].children[k] as int
            ].parent == Some(d as usize)
    }
}

/// In a new archive with a root, the two shortcuts have the root as their
/// parent.
pub proof fn lemma_created_parents(name: Seq<char>, sync: bool)
    ensures
        (Tree { data_header: DataHeader { sync, ..Tree::empty().data_header }, ..Tree::empty() }).with_root(
            name,
        ).parents_right(),
{
    let t = Tree { data_header: DataHeader { sync, ..Tree::empty().data_header }, ..Tree::empty() };
    let u = t.with_root(name);
    let folder = FileAttr(FileAttr::FOLDER);
    let t1 = t.with_dir(new_dir(name, true));
    let t2 = t1.attach(new_file(dot_text(), folder, Some(0), Some(0)));
    assert(t2.dirs[0].children =~= seq![0usize]);
    assert(u.dirs[0].children =~= seq![0usize, 1usize]);
    assert(u.entries =~= seq![
        new_file(dot_text(), folder, Some(0), Some(0)),
        new_file(dotdot_text(), folder, None, Some(0)),
    ]);
    assert(u.dirs.len() == 1);
}

/// Every entry is still with its parent when a directory is added beneath
/// a directory that is there.
pub proof fn lemma_folder_parents(t: Tree, name: Seq<char>, p: usize)
    requires
        t.linked(),
        t.parents_right(),
        p < t.dirs.len(),
        t.dirs.len() < usize::MAX,
        t.entries.len() + 3 <= usize::MAX,
    ensures
        t.with_folder(name, Some(p)).parents_right(),
{
    let u = t.with_folder(name, Some(p));
    lemma_with_folder_parts(t, name, p);
    assert forall|d: int, k: int|
        0 <= d < u.dirs.len() && 0 <= k < u.dirs[d].children.len() implies u.entries[
            #[trigger] u.dirs[d].children[k] as int
        ].parent == Some(d as usize) by {
        lemma_folder_child(t, name, p, d, k);
        if d < t.dirs.len() && k < t.dirs[d].children.len() {
            assert(t.entries[t.dirs[d].children[k] as int].parent == Some(d as usize));
        }
    }
}

/// Every entry is still with its parent when a file is added beneath a
/// directory that is there.
pub proof fn lemma_file_parents(t: Tree, name: Seq<char>, attr: FileAttr, p: usize)
    requires
        t.linked(),
        t.parents_right(),
        p < t.dirs.len() <= usize::MAX,
        t.entries.len() < usize::MAX,
    ensures
        t.with_file(name, attr, Some(p)).parents_right(),
{
    let u = t.with_file(name, attr, Some(p));
    let m = t.entries.len() as int;
    lemma_with_file_parts(t, name, attr, p);
    assert(u.entries[m].parent == Some(p));
    assert forall|d: int, k: int|
        0 <= d < u.dirs.len() && 0 <= k < u.dirs[d].children.len() implies u.entries[
            #[trigger] u.dirs[d].children[k] as int
        ].parent == Some(d as usize) by {
        lemma_file_child(t, name, attr, p, d, k);
        if k < t.dirs[d].children.len() {
            assert(t.entries[t.dirs[d].children[k] as int].parent == Some(d as usize));
        }
    }
}

/// Every entry is still with its parent when an entry is given a payload.
pub proof fn lemma_data_parents(t: Tree, handle: int, data: Seq<u8>)
    requires
        t.linked(),
        t.parents_right(),
        0 <= handle < t.entries.len(),
    ensures
        t.with_data(handle, data).parents_right(),
{
    let u = t.with_data(handle, data);
    assert forall|d: int, k: int|
        0 <= d < u.dirs.len() && 0 <= k < u.dirs[d].children.len() implies u.entries[
            #[trigger] u.dirs[d].children[k] as int
        ].parent == Some(d as usize) by {
        let c = t.dirs[d].children[k];
        assert(c < t.entries.len());
        assert(t.entries[c as int].parent == Some(d as usize));
    }
}

/// Sorting leaves every entry with its parent.
pub proof fn lemma_sorted_parents(s: Tree)
    requires
        s.linked(),
        s.tree_shaped(),
        s.all_listed(),
        s.parents_right(),
        s.dirs.len() <= usize::MAX,
        s.entries.len() <= usize::MAX,
    ensures
        s.sorted().parents_right(),
{
    let t = s.sorted();
    assert forall|d: int, k: int|
        0 <= d < t.dirs.len() && 0 <= k < t.dirs[d].children.len() implies t.entries[
            #[trigger] t.dirs[d].children[k] as int
        ].parent == Some(d as usize) by {
        lemma_sorted_child(s, d, k);
        let c = t.dirs[d].children[k];
        lemma_sorted_entry_kept(s, c as int);
        let q = s.dirs[d].children.index_of(c);
        assert(s.entries[s.dirs[d].children[q] as int].parent == Some(d as usize));
    }
}

/// Beneath a directory, the directory to which a link leads is listed
/// behind the directory that holds the link, provided that the walk lists
/// no directory twice: it does not run out of depth before it has listed
/// every directory.
pub proof fn lemma_link_behind(
    t: Tree,
    d: usize,
    j: int,
    depth: nat,
    prefix: Seq<usize>,
    i: int,
    k: int,
    f: usize,
)
    requires
        t.linked(),
        (prefix + t.dirs_from(d, j, depth)).no_duplicates(),
        forall|i: int| 0 <= i < prefix.len() ==> #[trigger] prefix[i] < t.dirs.len(),
        prefix.len() + depth >= t.dirs.len() + 1,
        0 <= i < t.dirs_from(d, j, depth).len(),
        t.is_link(t.dirs_from(d, j, depth)[i] as int, k, f),
    ensures
        exists|q: int| i < q < t.dirs_from(d, j, depth).len() && #[trigger] t.dirs_from(d, j, depth)[q] == f,
    decreases depth, t.dirs[d as int].children.len() - j,
{
    if d < t.dirs.len() && 0 <= j < t.dirs[d as int].children.len() {
        lemma_walk_step(t, d, j, depth);
        let all = t.dirs_from(d, j, depth);
        let listed = dirs_below(t, d, j, depth);
        let later = t.dirs_from(d, j + 1, depth);
        let whole = prefix + all;
        assert(all == listed + later);
        lemma_dirs_from_valid(t, d, j, depth);
        if i >= listed.len() {
            let longer = prefix + listed;
            assert(longer + later =~= whole);
            assert forall|x: int| 0 <= x < longer.len() implies #[trigger] longer[x] < t.dirs.len() by {
                if x >= prefix.len() {
                    assert(longer[x] == all[x - prefix.len()]);
                }
            }
            assert(later[i - listed.len()] == all[i]);
            lemma_link_behind(t, d, j + 1, depth, longer, i - listed.len(), k, f);
            let q = choose|q: int| i - listed.len() < q < later.len() && #[trigger] later[q] == f;
            assert(all[listed.len() + q] == f);
        } else {
            let c = t.dirs[d as int].children[j];
            let g = t.entries[c as int].folder.unwrap();
            let deeper = if depth > 0 {
                t.dirs_from(g, 0, (depth - 1) as nat)
            } else {
                Seq::<usize>::empty()
            };
            assert(listed == seq![g] + deeper);
            let longer = prefix + seq![g];
            assert(longer + (deeper + later) =~= whole);
            lemma_prefix_no_dup(longer, deeper + later);
            assert(g < t.dirs.len()) by {
                assert(all[0] == g);
            }
            assert forall|x: int| 0 <= x < longer.len() implies #[trigger] longer[x] < t.dirs.len() by {
                if x >= prefix.len() {
                    assert(longer[x] == g);
                }
            }
            lemma_bounded_len(longer, t.dirs.len());
            assert(depth > 0);
            if i == 0 {
                assert(all[0] == g);
                lemma_children_walked(t, g, 0, (depth - 1) as nat, k);
                lemma_links_listed(t, g, 0, (depth - 1) as nat, t.dirs[g as int].children[k], f);
                let q = deeper.index_of(f);
                assert(all[1 + q] == f);
            } else {
                assert(deeper[i - 1] == all[i]);
                assert((longer + deeper) + later =~= whole);
                lemma_prefix_no_dup(longer + deeper, later);
                lemma_link_behind(t, g, 0, (depth - 1) as nat, longer, i - 1, k, f);
                let q = choose|q: int| i - 1 < q < deeper.len() && #[trigger] deeper[q] == f;
                assert(all[1 + q] == f);
            }
        }
    }
}

/// The range of a directory lies behind the range of its parent. In a
/// strict tree that is sorted, the children of a directory start in the
/// file table where the children of the directory that holds the link to
/// it end, or behind, if that directory lies beneath the root.
pub proof fn lemma_range_behind_parent(s: Tree, d: int, k: int, f: usize)
    requires
        s.linked(),
        s.tree_shaped(),
        s.sortable_size(),
        s.dirs.len() <= usize::MAX,
        s.is_link(d, k, f),
        s.dir_order().contains(d as usize),
    ensures
        f < s.dirs.len(),
        s.dir_order().contains(f),
        s.sorted().dirs[d].node.file_off + s.sorted().dirs[d].node.file_count
            <= s.sorted().dirs[f as int].node.file_off,
{
    let order = s.dir_order();
    let n = s.dirs.len();
    let rest = s.dirs_from(0, 0, n);
    assert(order == seq![0usize] + rest);
    assert(s.is_sub_link(s.dirs[d].children[k]));
    assert(f < s.dirs.len());
    let kd = order.index_of(d as usize);
    assert(order[0] == 0);
    lemma_index_of_unique(order, 0);
    if d == 0 {
        assert(kd == 0);
        lemma_children_walked(s, 0, 0, n, k);
        lemma_links_listed(s, 0, 0, n, s.dirs[0].children[k], f);
        let q = rest.index_of(f);
        assert(order[1 + q] == f);
    } else {
        assert(kd != 0);
        assert(rest[kd - 1] == d);
        lemma_link_behind(s, 0, 0, n, seq![0usize], kd - 1, k, f);
        let q = choose|q: int| kd - 1 < q < rest.len() && #[trigger] rest[q] == f;
        assert(order[1 + q] == f);
    }
    let kf = order.index_of(f);
    let q = choose|q: int| 0 <= q < order.len() && order[q] == f && q > kd;
    lemma_index_of_unique(order, q);
    assert(kd < kf);
    lemma_sorted_dir(s, kd);
    lemma_sorted_dir(s, kf);
    assert(s.range_start(kd) <= 0xFFFF_FFFF);
    assert(s.range_start(kf) <= 0xFFFF_FFFF);
    assert(s.range_count(kd) <= 0xFFFF);
    lemma_starts_grow(s, kd, kf);
}

/// Every entry that was read has the parent that the entry had which was
/// written at its place of the file table.
pub open spec fn same_parents(t: Tree, read: Tree) -> bool {
    forall|j: int|
        0 <= j < t.table.len() ==> (#[trigger] read.entries[j]).parent == t.entries[t.table[j] as int].parent
}

/// A tree that is read as the tree that was written has the parents of
/// that tree, if every entry of its file table was with its parent and
/// stood in the table once.
pub proof fn lemma_same_parents(t: Tree, read: Tree)
    requires
        same_tree(t, read),
        t.parents_right(),
        t.table.no_duplicates(),
        forall|j: int| 0 <= j < t.table.len() ==> is_child(t, #[trigger] t.table[j]),
    ensures
        same_parents(t, read),
{
    assert forall|j: int| 0 <= j < t.table.len() implies (#[trigger] read.entries[j]).parent
        == t.entries[t.table[j] as int].parent by {
        let c = t.table[j];
        assert(is_child(t, c));
        let (d, k) = choose|d: int, k: int|
            0 <= d < t.dirs.len() && 0 <= k < t.dirs[d].children.len() && #[trigger] t.dirs[d].children[k]
                == c;
        assert(t.entries[t.dirs[d].children[k] as int].parent == Some(d as usize));
        assert(crate::inverse::same_dir(t, read.dirs[d], d));
        let x = read.dirs[d].children[k];
        assert(x < t.table.len() && t.table[x as int] == c);
        assert(x == j);
        assert(read.entries[read.dirs[d].children[k] as int].parent == Some(d as usize));
    }
}

} // verus!
