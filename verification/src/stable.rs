//! Sorting an archive that is sorted changes nothing of its shape: the walk
//! lists the same directories, and the file table is the same.

use vstd::prelude::*;
use crate::reach::lemma_walk_step;
use crate::settle::{
    lemma_order_valid, lemma_sorted_child, lemma_sorted_dir_kept, lemma_sorted_entry_kept,
};
use crate::tree::Tree;

verus! {

/// The directories that the walk lists beneath one entry: its directory
/// and what the walk lists beneath it, if the entry is a link to a
/// sub-directory.
pub open spec fn one_dirs(t: Tree, c: usize, depth: nat) -> Seq<usize> {
    if t.is_sub_link(c) && t.entries[c as int].folder is Some {
        let f = t.entries[c as int].folder.unwrap();
        seq![f] + if depth > 0 {
            t.dirs_from(f, 0, (depth - 1) as nat)
        } else {
            Seq::empty()
        }
    } else {
        Seq::empty()
    }
}

/// The directories that the walk lists beneath the entries of a list.
pub open spec fn list_dirs(t: Tree, list: Seq<usize>, depth: nat) -> Seq<usize>
    decreases list.len(),
{
    if list.len() == 0 {
        Seq::empty()
    } else {
        list_dirs(t, list.drop_last(), depth) + one_dirs(t, list.last(), depth)
    }
}

/// The directories beneath two lists of entries are those beneath the
/// first, then those beneath the second.
pub proof fn lemma_list_dirs_add(t: Tree, a: Seq<usize>, b: Seq<usize>, depth: nat)
    ensures
        list_dirs(t, a + b, depth) == list_dirs(t, a, depth) + list_dirs(t, b, depth),
    decreases b.len(),
{
    if b.len() == 0 {
        assert(a + b =~= a);
        assert(list_dirs(t, a, depth) + list_dirs(t, b, depth) =~= list_dirs(t, a, depth));
    } else {
        lemma_list_dirs_add(t, a, b.drop_last(), depth);
        assert((a + b).drop_last() =~= a + b.drop_last());
        assert((a + b).last() == b.last());
        assert(list_dirs(t, a + b, depth) =~= list_dirs(t, a, depth) + list_dirs(t, b, depth));
    }
}

/// The directories that the walk lists beneath a directory from a child on
/// are those beneath its children from that child on.
pub proof fn lemma_dirs_from_list(t: Tree, d: usize, j: int, depth: nat)
    requires
        d < t.dirs.len(),
        0 <= j <= t.dirs[d as int].children.len(),
    ensures
        t.dirs_from(d, j, depth) == list_dirs(t, t.dirs[d as int].children.skip(j), depth),
    decreases t.dirs[d as int].children.len() - j,
{
    let children = t.dirs[d as int].children;
    if j == children.len() {
        assert(children.skip(j) =~= Seq::<usize>::empty());
    } else {
        lemma_walk_step(t, d, j, depth);
        lemma_dirs_from_list(t, d, j + 1, depth);
        let first = seq![children[j]];
        assert(children.skip(j) =~= first + children.skip(j + 1));
        lemma_list_dirs_add(t, first, children.skip(j + 1), depth);
        assert(first.drop_last() =~= Seq::<usize>::empty());
        assert(list_dirs(t, first.drop_last(), depth) =~= Seq::<usize>::empty());
        assert(first.last() == children[j]);
        assert(list_dirs(t, first, depth) =~= one_dirs(t, children[j], depth));
    }
}

/// Entries beneath which the walk lists nothing can be left out of a list:
/// the walk lists the same directories beneath those that pass a test, if
/// it lists nothing beneath those that fail it.
pub proof fn lemma_list_dirs_filter(t: Tree, list: Seq<usize>, pred: spec_fn(usize) -> bool, depth: nat)
    requires
        forall|c: usize| !pred(c) ==> #[trigger] one_dirs(t, c, depth) == Seq::<usize>::empty(),
    ensures
        list_dirs(t, list.filter(pred), depth) == list_dirs(t, list, depth),
    decreases list.len(),
{
    reveal(Seq::filter);
    if list.len() > 0 {
        lemma_list_dirs_filter(t, list.drop_last(), pred, depth);
        let kept = list.drop_last().filter(pred);
        if pred(list.last()) {
            assert(kept.push(list.last()).drop_last() =~= kept);
        } else {
            assert(one_dirs(t, list.last(), depth) == Seq::<usize>::empty());
            assert(list_dirs(t, list, depth) =~= list_dirs(t, list.drop_last(), depth));
        }
    }
}

/// The walk lists nothing beneath the entries of a list beneath each of
/// which it lists nothing.
pub proof fn lemma_list_dirs_none(t: Tree, list: Seq<usize>, depth: nat)
    requires
        forall|i: int| 0 <= i < list.len() ==> one_dirs(t, #[trigger] list[i], depth) == Seq::<usize>::empty(),
    ensures
        list_dirs(t, list, depth) == Seq::<usize>::empty(),
    decreases list.len(),
{
    if list.len() > 0 {
        assert forall|i: int| 0 <= i < list.drop_last().len() implies one_dirs(
            t,
            #[trigger] list.drop_last()[i],
            depth,
        ) == Seq::<usize>::empty() by {
            assert(list.drop_last()[i] == list[i]);
        }
        lemma_list_dirs_none(t, list.drop_last(), depth);
        assert(one_dirs(t, list[list.len() - 1], depth) == Seq::<usize>::empty());
    }
}

/// The walk lists the same directories beneath the children of a directory
/// as the table lists them, shortcuts last, as beneath its children as
/// they stand.
pub proof fn lemma_sorted_children_dirs(s: Tree, d: usize, depth: nat)
    requires
        d < s.dirs.len(),
    ensures
        list_dirs(s, s.sorted_children(d), depth) == list_dirs(s, s.dirs[d as int].children, depth),
{
    let children = s.dirs[d as int].children;
    let plain = children.filter(s.no_shortcut());
    let short = children.filter(s.shortcut());
    lemma_list_dirs_add(s, plain, short, depth);
    assert forall|c: usize| !(s.no_shortcut())(c) implies #[trigger] one_dirs(s, c, depth) == Seq::<
        usize,
    >::empty() by {}
    lemma_list_dirs_filter(s, children, s.no_shortcut(), depth);
    assert forall|i: int| 0 <= i < short.len() implies one_dirs(s, #[trigger] short[i], depth) == Seq::<
        usize,
    >::empty() by {
        children.lemma_filter_pred(s.shortcut(), i);
    }
    lemma_list_dirs_none(s, short, depth);
    assert(list_dirs(s, plain, depth) + Seq::<usize>::empty() =~= list_dirs(s, plain, depth));
}

/// The walk lists the same directories beneath the entries of a list in
/// two archives whose entries are links to the same directories, if it
/// lists the same directories beneath every directory one level less deep.
pub proof fn lemma_list_dirs_same(s: Tree, t: Tree, list: Seq<usize>, depth: nat)
    requires
        forall|c: usize| #[trigger] one_dirs(t, c, depth) == one_dirs(s, c, depth),
    ensures
        list_dirs(t, list, depth) == list_dirs(s, list, depth),
    decreases list.len(),
{
    if list.len() > 0 {
        lemma_list_dirs_same(s, t, list.drop_last(), depth);
    }
}

/// An entry is a link to the same directory after sorting as before.
pub proof fn lemma_sorted_link_kept(s: Tree, c: usize)
    requires
        s.entries.len() <= usize::MAX,
    ensures
        s.sorted().is_sub_link(c) == s.is_sub_link(c),
        s.sorted().is_shortcut(c) == s.is_shortcut(c),
        c < s.entries.len() ==> s.sorted().entries[c as int].folder == s.entries[c as int].folder,
{
    if c < s.entries.len() {
        lemma_sorted_entry_kept(s, c as int);
    }
}

/// After sorting the walk lists the same directories beneath every
/// directory as before.
pub proof fn lemma_sorted_dirs_from(s: Tree, d: usize, depth: nat)
    requires
        s.all_listed(),
        s.dirs.len() <= usize::MAX,
        s.entries.len() <= usize::MAX,
    ensures
        s.sorted().dirs_from(d, 0, depth) == s.dirs_from(d, 0, depth),
    decreases depth,
{
    let t = s.sorted();
    if d < s.dirs.len() {
        assert(s.dir_order().contains(d));
        lemma_sorted_dir_kept(s, d as int);
        lemma_dirs_from_list(t, d, 0, depth);
        lemma_dirs_from_list(s, d, 0, depth);
        assert(t.dirs[d as int].children.skip(0) =~= s.sorted_children(d));
        assert(s.dirs[d as int].children.skip(0) =~= s.dirs[d as int].children);
        assert forall|c: usize| #[trigger] one_dirs(t, c, depth) == one_dirs(s, c, depth) by {
            lemma_sorted_link_kept(s, c);
            if depth > 0 && s.is_sub_link(c) && s.entries[c as int].folder is Some {
                lemma_sorted_dirs_from(s, s.entries[c as int].folder.unwrap(), (depth - 1) as nat);
            }
        }
        lemma_list_dirs_same(s, t, s.sorted_children(d), depth);
        lemma_sorted_children_dirs(s, d, depth);
    } else {
        assert(t.dirs.len() == s.dirs.len());
    }
}

/// After sorting the walk lists the directories that it listed before, in
/// the same order.
pub proof fn lemma_sorted_order(s: Tree)
    requires
        s.all_listed(),
        s.dirs.len() <= usize::MAX,
        s.entries.len() <= usize::MAX,
    ensures
        s.sorted().dir_order() == s.dir_order(),
        s.sorted().all_listed(),
{
    lemma_sorted_dirs_from(s, 0, s.dirs.len());
    assert(s.sorted().dirs.len() == s.dirs.len());
    assert forall|d: usize| d < s.sorted().dirs.len() implies #[trigger] s.sorted().dir_order().contains(d) by {
        assert(s.dir_order().contains(d));
    }
}

/// A list all of whose members pass a test is left as it is by the test.
pub proof fn lemma_filter_all(list: Seq<usize>, pred: spec_fn(usize) -> bool)
    requires
        forall|i: int| 0 <= i < list.len() ==> pred(#[trigger] list[i]),
    ensures
        list.filter(pred) == list,
    decreases list.len(),
{
    reveal(Seq::filter);
    if list.len() > 0 {
        assert forall|i: int| 0 <= i < list.drop_last().len() implies pred(#[trigger] list.drop_last()[i]) by {
            assert(list.drop_last()[i] == list[i]);
        }
        lemma_filter_all(list.drop_last(), pred);
        assert(pred(list[list.len() - 1]));
        assert(list.drop_last().push(list.last()) =~= list);
    }
}

/// Of a list none of whose members passes a test the test leaves nothing.
pub proof fn lemma_filter_none(list: Seq<usize>, pred: spec_fn(usize) -> bool)
    requires
        forall|i: int| 0 <= i < list.len() ==> !pred(#[trigger] list[i]),
    ensures
        list.filter(pred) == Seq::<usize>::empty(),
    decreases list.len(),
{
    reveal(Seq::filter);
    if list.len() > 0 {
        assert forall|i: int| 0 <= i < list.drop_last().len() implies !pred(#[trigger] list.drop_last()[i]) by {
            assert(list.drop_last()[i] == list[i]);
        }
        lemma_filter_none(list.drop_last(), pred);
        assert(!pred(list[list.len() - 1]));
    }
}

/// After sorting, the table lists the children of a directory as it did
/// when the archive was sorted.
pub proof fn lemma_sorted_children_kept(s: Tree, d: usize)
    requires
        s.all_listed(),
        d < s.dirs.len(),
        s.dirs.len() <= usize::MAX,
        s.entries.len() <= usize::MAX,
    ensures
        s.sorted().sorted_children(d) == s.sorted_children(d),
{
    let t = s.sorted();
    let children = s.dirs[d as int].children;
    let plain = children.filter(s.no_shortcut());
    let short = children.filter(s.shortcut());
    assert(s.dir_order().contains(d));
    lemma_sorted_dir_kept(s, d as int);
    assert(t.dirs[d as int].children == plain + short);
    assert forall|c: usize| #[trigger] (t.no_shortcut())(c) == (s.no_shortcut())(c) by {
        lemma_sorted_link_kept(s, c);
    }
    assert forall|c: usize| #[trigger] (t.shortcut())(c) == (s.shortcut())(c) by {
        lemma_sorted_link_kept(s, c);
    }
    assert(t.no_shortcut() =~= s.no_shortcut());
    assert(t.shortcut() =~= s.shortcut());
    Seq::filter_distributes_over_add(plain, short, s.no_shortcut());
    Seq::filter_distributes_over_add(plain, short, s.shortcut());
    assert forall|i: int| 0 <= i < plain.len() implies (s.no_shortcut())(#[trigger] plain[i]) by {
        children.lemma_filter_pred(s.no_shortcut(), i);
    }
    assert forall|i: int| 0 <= i < short.len() implies (s.shortcut())(#[trigger] short[i]) by {
        children.lemma_filter_pred(s.shortcut(), i);
    }
    lemma_filter_all(plain, s.no_shortcut());
    lemma_filter_none(short, s.no_shortcut());
    lemma_filter_none(plain, s.shortcut());
    lemma_filter_all(short, s.shortcut());
    assert(plain + Seq::<usize>::empty() =~= plain);
    assert(Seq::<usize>::empty() + short =~= short);
}

/// After sorting, the table of an order of directories is what it was when
/// the archive was sorted.
pub proof fn lemma_sorted_table_kept(s: Tree, order: Seq<usize>)
    requires
        s.all_listed(),
        s.dirs.len() <= usize::MAX,
        s.entries.len() <= usize::MAX,
        forall|k: int| 0 <= k < order.len() ==> #[trigger] order[k] < s.dirs.len(),
    ensures
        s.sorted().table_of(order) == s.table_of(order),
    decreases order.len(),
{
    if order.len() > 0 {
        assert forall|k: int| 0 <= k < order.drop_last().len() implies #[trigger] order.drop_last()[k]
            < s.dirs.len() by {
            assert(order.drop_last()[k] == order[k]);
        }
        lemma_sorted_table_kept(s, order.drop_last());
        assert(order[order.len() - 1] < s.dirs.len());
        lemma_sorted_children_kept(s, order.last());
    }
}

/// An archive that was sorted is a strict tree, as it was before, and its
/// links lead somewhere.
pub proof fn lemma_sorted_shape(s: Tree)
    requires
        s.linked(),
        s.tree_shaped(),
        s.all_listed(),
        s.dirs.len() <= usize::MAX,
        s.entries.len() <= usize::MAX,
    ensures
        s.sorted().tree_shaped(),
        s.sorted().linked(),
        s.sorted().all_listed(),
        s.sorted().dir_order() == s.dir_order(),
        s.sorted().sorted_table() == s.sorted_table(),
{
    let t = s.sorted();
    let order = s.dir_order();
    lemma_sorted_order(s);
    lemma_order_valid(s);
    lemma_sorted_table_kept(s, order);
    assert forall|k: int| 0 <= k < order.len() implies !t.has_dangling(#[trigger] order[k]) by {
        let d = order[k];
        assert(!s.has_dangling(d));
        if t.has_dangling(d) {
            let j = choose|j: int|
                0 <= j < t.dirs[d as int].children.len() && t.is_sub_link(
                    #[trigger] t.dirs[d as int].children[j],
                ) && t.entries[t.dirs[d as int].children[j] as int].folder is None;
            let c = t.dirs[d as int].children[j];
            lemma_sorted_child(s, d as int, j);
            lemma_sorted_link_kept(s, c);
            let q = s.dirs[d as int].children.index_of(c);
            assert(s.is_sub_link(s.dirs[d as int].children[q]));
        }
    }
    assert forall|d: int, j: int|
        0 <= d < t.dirs.len() && 0 <= j < t.dirs[d].children.len() implies #[trigger] t.dirs[d].children[j]
        < t.entries.len() by {
        lemma_sorted_child(s, d, j);
    }
    assert forall|d: int| 0 <= d < t.dirs.len() && (#[trigger] t.dirs[d]).file is Some implies t.dirs[d].file.unwrap()
        < t.entries.len() by {
        assert(t.dirs[d].file == s.dirs[(d as usize) as int].file);
        assert(s.dirs[d].file is Some);
    }
    assert forall|i: int| 0 <= i < t.entries.len() && (#[trigger] t.entries[i]).folder is Some implies t.entries[i].folder.unwrap()
        < t.dirs.len() by {
        lemma_sorted_entry_kept(s, i);
        assert(s.entries[i].folder is Some);
    }
    assert forall|i: int| 0 <= i < t.entries.len() && (#[trigger] t.entries[i]).parent is Some implies t.entries[i].parent.unwrap()
        < t.dirs.len() by {
        lemma_sorted_entry_kept(s, i);
        assert(s.entries[i].parent is Some);
    }
    assert forall|k: int| 0 <= k < t.table.len() implies #[trigger] t.table[k] < t.entries.len() by {
        crate::settle::lemma_table_member(s, order, k);
        let (q, i) = choose|q: int, i: int|
            0 <= q < order.len() && 0 <= i < s.sorted_children(order[q]).len() && k == s.table_of(
                order.take(q),
            ).len() + i && #[trigger] s.sorted_children(order[q])[i] == s.table_of(order)[k];
        assert(order.contains(order[q]));
        lemma_sorted_dir_kept(s, order[q] as int);
        lemma_sorted_child(s, order[q] as int, i);
    }
}

} // verus!
