//! Archives that grow from a root: every directory but the root hangs by
//! one link beneath a directory that was there before it. Such an archive
//! is a strict tree, and the walk from the root lists all of it.

use vstd::prelude::*;
use crate::reach::{lemma_contains_add, lemma_walk_step};
use crate::roundtrip::links_to;
use crate::settle::{lemma_sorted_children_are_children, lemma_table_member};
use crate::tree::Tree;
use crate::walk::lemma_filter_members;

verus! {

impl Tree {
    /// Whether the child at position `k` of the directory `d` is a link to
    /// the directory `f`.
    pub open spec fn is_link(self, d: int, k: int, f: usize) -> bool {
        0 <= d < self.dirs.len() && 0 <= k < self.dirs[d].children.len() && links_to(
            self,
            self.dirs[d].children[k],
            f,
        )
    }

    /// Every link to a sub-directory names a directory that stands behind
    /// the directory that holds the link.
    pub open spec fn links_ahead(self) -> bool {
        forall|d: int, k: int|
            0 <= d < self.dirs.len() && 0 <= k < self.dirs[d].children.len() && self.is_sub_link(
                #[trigger] self.dirs[d].children[k],
            ) ==> self.entries[self.dirs[d].children[k] as int].folder is Some && d
                < self.entries[self.dirs[d].children[k] as int].folder.unwrap() < self.dirs.len()
    }

    /// One link leads to every directory but the root, and no second.
    pub open spec fn links_single(self) -> bool {
        &&& forall|f: usize| 1 <= f < self.dirs.len() ==> #[trigger] self.has_parent(f)
        &&& forall|d: int, k: int, e: int, j: int, f: usize|
            #[trigger] self.is_link(d, k, f) && #[trigger] self.is_link(e, j, f) ==> d == e && k == j
    }

    /// Whether a link leads to the directory `f`.
    pub open spec fn has_parent(self, f: usize) -> bool {
        exists|d: int, k: int| #[trigger] self.is_link(d, k, f)
    }

    /// No entry is the child of two directories, or twice the child of one.
    pub open spec fn children_single(self) -> bool {
        forall|d: int, k: int, e: int, j: int|
            0 <= d < self.dirs.len() && 0 <= k < self.dirs[d].children.len() && 0 <= e < self.dirs.len()
                && 0 <= j < self.dirs[e].children.len() && #[trigger] self.dirs[d].children[k]
                == #[trigger] self.dirs[e].children[j] ==> d == e && k == j
    }

    /// The archive grew from a root: its links lead somewhere, each link to
    /// a sub-directory names a directory behind its own, one link leads to
    /// every directory but the root, and no entry is a child twice.
    pub open spec fn grown(self) -> bool {
        &&& 0 < self.dirs.len() <= usize::MAX
        &&& self.linked()
        &&& self.links_ahead()
        &&& self.links_single()
        &&& self.children_single()
    }

    /// The directories beneath `d`, from its child at position `j` on, in
    /// the order of a depth-first walk that follows the links that lead
    /// ahead.
    pub open spec fn under(self, d: usize, j: int) -> Seq<usize>
        decreases self.dirs.len() - d, self.dirs[d as int].children.len() - j,
    {
        if d >= self.dirs.len() || j < 0 || j >= self.dirs[d as int].children.len() {
            Seq::empty()
        } else {
            self.under_child(d, j) + self.under(d, j + 1)
        }
    }

    /// The directories beneath the child at position `j` of `d`: the
    /// directory of the child and what lies beneath it, if the child is a
    /// link that leads ahead.
    pub open spec fn under_child(self, d: usize, j: int) -> Seq<usize>
        decreases self.dirs.len() - d, self.dirs[d as int].children.len() - j, 0nat,
    {
        let c = self.dirs[d as int].children[j];
        if d < self.dirs.len() && 0 <= j < self.dirs[d as int].children.len() && self.is_sub_link(c)
            && self.entries[c as int].folder is Some && d < self.entries[c as int].folder.unwrap()
            < self.dirs.len() {
            seq![self.entries[c as int].folder.unwrap()] + self.under(
                self.entries[c as int].folder.unwrap(),
                0,
            )
        } else {
            Seq::empty()
        }
    }
}

/// The walk lists beneath a directory of an archive whose links lead ahead
/// what lies beneath it, if it may go down as many levels as directories
/// stand behind that directory.
pub proof fn lemma_under_walk(t: Tree, d: usize, j: int, depth: nat)
    requires
        t.linked(),
        t.links_ahead(),
        d < t.dirs.len(),
        0 <= j,
        depth + d + 1 >= t.dirs.len(),
    ensures
        t.dirs_from(d, j, depth) == t.under(d, j),
    decreases t.dirs.len() - d, t.dirs[d as int].children.len() - j,
{
    if j < t.dirs[d as int].children.len() {
        lemma_walk_step(t, d, j, depth);
        lemma_under_walk(t, d, j + 1, depth);
        let c = t.dirs[d as int].children[j];
        assert(c == t.dirs[d as int].children[j]);
        if t.is_sub_link(c) {
            let f = t.entries[c as int].folder.unwrap();
            assert(d < f < t.dirs.len());
            assert(depth > 0);
            lemma_under_walk(t, f, 0, (depth - 1) as nat);
            assert(crate::reach::dirs_below(t, d, j, depth) == seq![f] + t.dirs_from(
                f,
                0,
                (depth - 1) as nat,
            ));
            assert(t.under_child(d, j) == seq![f] + t.under(f, 0));
        } else {
            assert(crate::reach::dirs_below(t, d, j, depth) == Seq::<usize>::empty());
            assert(t.under_child(d, j) == Seq::<usize>::empty());
        }
    } else {
        assert(t.dirs_from(d, j, depth) == Seq::<usize>::empty());
    }
}

/// Every directory beneath a directory stands behind it.
pub proof fn lemma_under_ahead(t: Tree, d: usize, j: int, x: usize)
    requires
        t.under(d, j).contains(x),
    ensures
        d < x < t.dirs.len(),
    decreases t.dirs.len() - d, t.dirs[d as int].children.len() - j,
{
    if d < t.dirs.len() && 0 <= j < t.dirs[d as int].children.len() {
        let here = t.under_child(d, j);
        lemma_contains_add(here, t.under(d, j + 1), x);
        if t.under(d, j + 1).contains(x) {
            lemma_under_ahead(t, d, j + 1, x);
        } else {
            let c = t.dirs[d as int].children[j];
            let f = t.entries[c as int].folder.unwrap();
            lemma_contains_add(seq![f], t.under(f, 0), x);
            if t.under(f, 0).contains(x) {
                lemma_under_ahead(t, f, 0, x);
            } else {
                assert(seq![f][0] == x);
            }
        }
    }
}

/// The directory of a link of a directory lies beneath the directory.
pub proof fn lemma_child_under(t: Tree, d: usize, j: int, k: int, f: usize)
    requires
        t.links_ahead(),
        0 <= j <= k,
        t.is_link(d as int, k, f),
    ensures
        t.under(d, j).contains(f),
        t.under_child(d, k).contains(f),
    decreases k - j,
{
    let here = t.under_child(d, j);
    lemma_contains_add(here, t.under(d, j + 1), f);
    let c = t.dirs[d as int].children[k];
    assert(t.is_sub_link(c));
    lemma_contains_add(seq![f], t.under(f, 0), f);
    assert(seq![f][0] == f);
    if j < k {
        lemma_child_under(t, d, j + 1, k, f);
    }
}

/// What lies beneath a directory that lies beneath another lies beneath
/// that other.
pub proof fn lemma_under_under(t: Tree, a: usize, j: int, d: usize, x: usize)
    requires
        t.under(a, j).contains(d),
        t.under(d, 0).contains(x),
    ensures
        t.under(a, j).contains(x),
    decreases t.dirs.len() - a, t.dirs[a as int].children.len() - j,
{
    if a < t.dirs.len() && 0 <= j < t.dirs[a as int].children.len() {
        let here = t.under_child(a, j);
        let rest = t.under(a, j + 1);
        lemma_contains_add(here, rest, d);
        lemma_contains_add(here, rest, x);
        if rest.contains(d) {
            lemma_under_under(t, a, j + 1, d, x);
        } else {
            let c = t.dirs[a as int].children[j];
            let f = t.entries[c as int].folder.unwrap();
            lemma_contains_add(seq![f], t.under(f, 0), d);
            lemma_contains_add(seq![f], t.under(f, 0), x);
            if t.under(f, 0).contains(d) {
                lemma_under_under(t, f, 0, d, x);
            } else {
                assert(seq![f][0] == d);
            }
        }
    }
}

/// A directory that lies beneath another hangs by a link of that other, or
/// by a link of a directory that lies beneath it too.
pub proof fn lemma_under_parent(t: Tree, d: usize, j: int, x: usize)
    requires
        t.links_ahead(),
        t.under(d, j).contains(x),
    ensures
        exists|e: int, k: int|
            #[trigger] t.is_link(e, k, x) && ((e == d && k >= j) || (0 <= e && t.under(d, j).contains(
                e as usize,
            ))),
    decreases t.dirs.len() - d, t.dirs[d as int].children.len() - j,
{
    if d < t.dirs.len() && 0 <= j < t.dirs[d as int].children.len() {
        let here = t.under_child(d, j);
        let rest = t.under(d, j + 1);
        lemma_contains_add(here, rest, x);
        if rest.contains(x) {
            lemma_under_parent(t, d, j + 1, x);
            let (e, k) = choose|e: int, k: int|
                #[trigger] t.is_link(e, k, x) && ((e == d && k >= j + 1) || (0 <= e && rest.contains(
                    e as usize,
                )));
            if !(e == d && k >= j + 1) {
                lemma_contains_add(here, rest, e as usize);
            }
            assert(t.is_link(e, k, x) && ((e == d && k >= j) || (0 <= e && t.under(d, j).contains(
                e as usize,
            ))));
        } else {
            let c = t.dirs[d as int].children[j];
            let f = t.entries[c as int].folder.unwrap();
            lemma_contains_add(seq![f], t.under(f, 0), x);
            if t.under(f, 0).contains(x) {
                lemma_under_parent(t, f, 0, x);
                let (e, k) = choose|e: int, k: int|
                    #[trigger] t.is_link(e, k, x) && ((e == f && k >= 0) || (0 <= e && t.under(
                        f,
                        0,
                    ).contains(e as usize)));
                lemma_contains_add(seq![f], t.under(f, 0), e as usize);
                lemma_contains_add(here, rest, e as usize);
                if e == f {
                    assert(seq![f][0] == f);
                }
                assert(t.is_link(e, k, x) && (0 <= e && t.under(d, j).contains(e as usize)));
            } else {
                assert(seq![f][0] == x);
                assert(t.is_link(d as int, j, x));
            }
        }
    }
}

/// No directory lies beneath a child of a directory and beneath a later
/// child of it too.
pub proof fn lemma_under_disjoint(t: Tree, d: usize, j: int, x: usize)
    requires
        t.grown(),
        d < t.dirs.len(),
        0 <= j < t.dirs[d as int].children.len(),
    ensures
        !(t.under_child(d, j).contains(x) && t.under(d, j + 1).contains(x)),
    decreases x,
{
    let here = t.under_child(d, j);
    let rest = t.under(d, j + 1);
    if here.contains(x) && rest.contains(x) {
        lemma_under_parent(t, d, j + 1, x);
        let (e, k) = choose|e: int, k: int|
            #[trigger] t.is_link(e, k, x) && ((e == d && k >= j + 1) || (0 <= e && rest.contains(e as usize)));
        let c = t.dirs[d as int].children[j];
        let f = t.entries[c as int].folder.unwrap();
        assert(here == seq![f] + t.under(f, 0));
        lemma_contains_add(seq![f], t.under(f, 0), x);
        if t.under(f, 0).contains(x) {
            lemma_under_parent(t, f, 0, x);
            let (e2, k2) = choose|e2: int, k2: int|
                #[trigger] t.is_link(e2, k2, x) && ((e2 == f && k2 >= 0) || (0 <= e2 && t.under(f, 0).contains(
                    e2 as usize,
                )));
            assert(e2 == e && k2 == k);
            lemma_contains_add(seq![f], t.under(f, 0), e as usize);
            if e == f {
                assert(seq![f][0] == f);
            }
            assert(here.contains(e as usize));
            if e == d && k >= j + 1 {
                if t.under(f, 0).contains(d) {
                    lemma_under_ahead(t, f, 0, d);
                } else {
                    assert(f == d);
                }
            } else {
                assert(t.is_sub_link(t.dirs[e].children[k]));
                assert(e < x);
                lemma_under_disjoint(t, d, j, e as usize);
            }
        } else {
            assert(seq![f][0] == x);
            assert(t.is_link(d as int, j, x));
            assert(e == d && k == j);
            lemma_under_ahead(t, d, j + 1, d);
        }
    }
}

/// No directory lies twice beneath a directory.
pub proof fn lemma_under_no_dup(t: Tree, d: usize, j: int)
    requires
        t.grown(),
    ensures
        t.under(d, j).no_duplicates(),
    decreases t.dirs.len() - d, t.dirs[d as int].children.len() - j,
{
    if d < t.dirs.len() && 0 <= j < t.dirs[d as int].children.len() {
        let here = t.under_child(d, j);
        let rest = t.under(d, j + 1);
        lemma_under_no_dup(t, d, j + 1);
        let c = t.dirs[d as int].children[j];
        if t.is_sub_link(c) {
            let f = t.entries[c as int].folder.unwrap();
            assert(d < f < t.dirs.len());
            assert(here == seq![f] + t.under(f, 0));
            lemma_under_no_dup(t, f, 0);
            assert forall|a: int, b: int| 0 <= a < seq![f].len() && 0 <= b < t.under(f, 0).len() implies seq![
                f,
            ][a] != t.under(f, 0)[b] by {
                if f == t.under(f, 0)[b] {
                    assert(t.under(f, 0).contains(f));
                    lemma_under_ahead(t, f, 0, f);
                }
            }
            vstd::seq_lib::lemma_no_dup_in_concat(seq![f], t.under(f, 0));
        } else {
            assert(here == Seq::<usize>::empty());
        }
        assert forall|a: int, b: int| 0 <= a < here.len() && 0 <= b < rest.len() implies here[a] != rest[b] by {
            if here[a] == rest[b] {
                assert(here.contains(here[a]));
                assert(rest.contains(rest[b]));
                lemma_under_disjoint(t, d, j, here[a]);
            }
        }
        vstd::seq_lib::lemma_no_dup_in_concat(here, rest);
    }
}

/// Every directory but the root lies beneath the root.
pub proof fn lemma_all_under(t: Tree, x: usize)
    requires
        t.grown(),
        1 <= x < t.dirs.len(),
    ensures
        t.under(0, 0).contains(x),
    decreases x,
{
    assert(t.has_parent(x));
    let (d, k) = choose|d: int, k: int| #[trigger] t.is_link(d, k, x);
    assert(t.is_sub_link(t.dirs[d].children[k]));
    assert(d < x);
    if d == 0 {
        lemma_child_under(t, 0, 0, k, x);
    } else {
        lemma_all_under(t, d as usize);
        lemma_child_under(t, d as usize, 0, k, x);
        lemma_under_under(t, 0, 0, d as usize, x);
    }
}

/// In an archive that grew from a root, the walk from the root lists every
/// directory, and none twice.
pub proof fn lemma_grown_order(t: Tree)
    requires
        t.grown(),
    ensures
        t.dir_order() == seq![0usize] + t.under(0, 0),
        t.dir_order().no_duplicates(),
        t.all_listed(),
        forall|k: int| 0 <= k < t.dir_order().len() ==> !t.has_dangling(#[trigger] t.dir_order()[k]),
{
    lemma_under_walk(t, 0, 0, t.dirs.len());
    lemma_under_no_dup(t, 0, 0);
    let rest = t.under(0, 0);
    assert forall|a: int, b: int| 0 <= a < seq![0usize].len() && 0 <= b < rest.len() implies seq![0usize][a]
        != rest[b] by {
        if rest[b] == 0 {
            assert(rest.contains(0usize));
            lemma_under_ahead(t, 0, 0, 0);
        }
    }
    vstd::seq_lib::lemma_no_dup_in_concat(seq![0usize], rest);
    assert forall|d: usize| d < t.dirs.len() implies #[trigger] t.dir_order().contains(d) by {
        lemma_contains_add(seq![0usize], rest, d);
        if d == 0 {
            assert(seq![0usize][0] == 0);
        } else {
            lemma_all_under(t, d);
        }
    }
    assert forall|k: int| 0 <= k < t.dir_order().len() implies !t.has_dangling(#[trigger] t.dir_order()[k]) by {
        let d = t.dir_order()[k];
        if t.has_dangling(d) {
            let j = choose|j: int|
                0 <= j < t.dirs[d as int].children.len() && t.is_sub_link(
                    #[trigger] t.dirs[d as int].children[j],
                ) && t.entries[t.dirs[d as int].children[j] as int].folder is None;
            if d < t.dirs.len() {
                assert(t.entries[t.dirs[d as int].children[j] as int].folder is Some);
            } else {
                assert(t.dir_order().contains(d));
                lemma_contains_add(seq![0usize], rest, d);
                if rest.contains(d) {
                    lemma_under_ahead(t, 0, 0, d);
                } else {
                    assert(seq![0usize][0] == d);
                }
            }
        }
    }
}

/// What a test leaves of a list without repetitions has none.
pub proof fn lemma_filter_no_dup(list: Seq<usize>, pred: spec_fn(usize) -> bool)
    requires
        list.no_duplicates(),
    ensures
        list.filter(pred).no_duplicates(),
    decreases list.len(),
{
    reveal(Seq::filter);
    if list.len() > 0 {
        let init = list.drop_last();
        assert forall|a: int, b: int| 0 <= a < init.len() && 0 <= b < init.len() && a != b implies init[a]
            != init[b] by {
            assert(init[a] == list[a] && init[b] == list[b]);
        }
        lemma_filter_no_dup(init, pred);
        if pred(list.last()) {
            let kept = init.filter(pred);
            lemma_filter_members(init, pred);
            assert forall|a: int, b: int| 0 <= a < kept.len() && 0 <= b < seq![list.last()].len() implies kept[a]
                != seq![list.last()][b] by {
                if kept[a] == list.last() {
                    assert(init.contains(kept[a]));
                    let q = init.index_of(kept[a]);
                    assert(list[q] == list[list.len() - 1]);
                }
            }
            vstd::seq_lib::lemma_no_dup_in_concat(kept, seq![list.last()]);
            assert(kept.push(list.last()) =~= kept + seq![list.last()]);
        }
    }
}

/// The children of a directory as the table lists them are not repeated
/// if no entry is a child twice.
pub proof fn lemma_sorted_children_no_dup(t: Tree, d: usize)
    requires
        t.children_single(),
        d < t.dirs.len(),
    ensures
        t.sorted_children(d).no_duplicates(),
{
    let children = t.dirs[d as int].children;
    let plain = children.filter(t.no_shortcut());
    let short = children.filter(t.shortcut());
    assert forall|a: int, b: int| 0 <= a < children.len() && 0 <= b < children.len() && a != b implies children[a]
        != children[b] by {
        if t.dirs[d as int].children[a] == t.dirs[d as int].children[b] {
            assert(a == b);
        }
    }
    lemma_filter_no_dup(children, t.no_shortcut());
    lemma_filter_no_dup(children, t.shortcut());
    assert forall|a: int, b: int| 0 <= a < plain.len() && 0 <= b < short.len() implies plain[a] != short[b] by {
        children.lemma_filter_pred(t.no_shortcut(), a);
        children.lemma_filter_pred(t.shortcut(), b);
    }
    vstd::seq_lib::lemma_no_dup_in_concat(plain, short);
}

/// The table of directories that are not repeated lists no entry twice if
/// no entry is a child twice.
pub proof fn lemma_table_no_dup(t: Tree, order: Seq<usize>)
    requires
        t.children_single(),
        order.no_duplicates(),
        forall|k: int| 0 <= k < order.len() ==> #[trigger] order[k] < t.dirs.len(),
    ensures
        t.table_of(order).no_duplicates(),
    decreases order.len(),
{
    if order.len() > 0 {
        let shorter = order.drop_last();
        let last = order.last();
        assert forall|k: int| 0 <= k < shorter.len() implies #[trigger] shorter[k] < t.dirs.len() by {
            assert(shorter[k] == order[k]);
        }
        assert forall|a: int, b: int| 0 <= a < shorter.len() && 0 <= b < shorter.len() && a != b implies shorter[a]
            != shorter[b] by {
            assert(shorter[a] == order[a] && shorter[b] == order[b]);
        }
        lemma_table_no_dup(t, shorter);
        assert(order[order.len() - 1] < t.dirs.len());
        lemma_sorted_children_no_dup(t, last);
        let before = t.table_of(shorter);
        let kids = t.sorted_children(last);
        assert forall|a: int, b: int| 0 <= a < before.len() && 0 <= b < kids.len() implies before[a] != kids[b] by {
            if before[a] == kids[b] {
                lemma_table_member(t, shorter, a);
                let (k, i) = choose|k: int, i: int|
                    0 <= k < shorter.len() && 0 <= i < t.sorted_children(shorter[k]).len() && a == t.table_of(
                        shorter.take(k),
                    ).len() + i && #[trigger] t.sorted_children(shorter[k])[i] == before[a];
                lemma_sorted_children_are_children(t, shorter[k], i);
                lemma_sorted_children_are_children(t, last, b);
                let e = shorter[k] as int;
                let q = t.dirs[e].children.index_of(before[a]);
                let r = t.dirs[last as int].children.index_of(kids[b]);
                assert(t.dirs[e].children[q] == t.dirs[last as int].children[r]);
                assert(e == last);
                assert(order[k] == order[order.len() - 1]);
            }
        }
        vstd::seq_lib::lemma_no_dup_in_concat(before, kids);
    }
}

/// An archive that grew from a root is a strict tree, and the walk from
/// the root lists every directory of it.
pub proof fn lemma_grown_shape(t: Tree)
    requires
        t.grown(),
    ensures
        t.tree_shaped(),
        t.all_listed(),
{
    lemma_grown_order(t);
    crate::settle::lemma_order_valid(t);
    lemma_table_no_dup(t, t.dir_order());
}

} // verus!
