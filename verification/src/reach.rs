//! What the walk reaches: the entries of the directories beneath the root,
//! and a link for every directory that it lists.

use vstd::prelude::*;
use crate::roundtrip::links_to;
use crate::tree::Tree;
use crate::walk::lemma_bounded_len;

verus! {

/// Whether the entry `c` is a child of some directory.
pub open spec fn is_child(t: Tree, c: usize) -> bool {
    exists|d: int, k: int|
        0 <= d < t.dirs.len() && 0 <= k < t.dirs[d].children.len() && #[trigger] t.dirs[d].children[k] == c
}

/// A member of the first or of the second of two lists is a member of the
/// two lists joined.
pub proof fn lemma_contains_add(a: Seq<usize>, b: Seq<usize>, x: usize)
    ensures
        (a + b).contains(x) <==> a.contains(x) || b.contains(x),
{
    if a.contains(x) {
        let i = a.index_of(x);
        assert((a + b)[i] == x);
    }
    if b.contains(x) {
        let i = b.index_of(x);
        assert((a + b)[a.len() + i] == x);
    }
    if (a + b).contains(x) {
        let i = (a + b).index_of(x);
        if i < a.len() {
            assert(a[i] == x);
        } else {
            assert(b[i - a.len()] == x);
        }
    }
}

/// The parts of the walk beneath a directory from one of its children on:
/// the child, what lies beneath it, and the walk from the next child on.
pub open spec fn walk_below(t: Tree, d: usize, j: int, depth: nat) -> Seq<usize> {
    let c = t.dirs[d as int].children[j];
    if depth > 0 && t.is_sub_link(c) && t.entries[c as int].folder is Some {
        t.walk_from(t.entries[c as int].folder.unwrap(), 0, (depth - 1) as nat)
    } else {
        Seq::empty()
    }
}

/// The directories that the walk lists beneath one child of a directory.
pub open spec fn dirs_below(t: Tree, d: usize, j: int, depth: nat) -> Seq<usize> {
    let c = t.dirs[d as int].children[j];
    if t.is_sub_link(c) && t.entries[c as int].folder is Some {
        let f = t.entries[c as int].folder.unwrap();
        seq![f] + if depth > 0 {
            t.dirs_from(f, 0, (depth - 1) as nat)
        } else {
            Seq::empty()
        }
    } else {
        Seq::empty()
    }
}

/// The walk from a child on is the child, what lies beneath it, and the
/// walk from the next child on; so are the directories that it lists.
pub proof fn lemma_walk_step(t: Tree, d: usize, j: int, depth: nat)
    requires
        d < t.dirs.len(),
        0 <= j < t.dirs[d as int].children.len(),
    ensures
        t.walk_from(d, j, depth) == seq![t.dirs[d as int].children[j]] + walk_below(t, d, j, depth)
            + t.walk_from(d, j + 1, depth),
        t.dirs_from(d, j, depth) == dirs_below(t, d, j, depth) + t.dirs_from(d, j + 1, depth),
{
    let c = t.dirs[d as int].children[j];
    if t.is_sub_link(c) && t.entries[c as int].folder is Some {
        let f = t.entries[c as int].folder.unwrap();
        let below = if depth > 0 {
            t.dirs_from(f, 0, (depth - 1) as nat)
        } else {
            Seq::<usize>::empty()
        };
        assert(t.dirs_from(d, j, depth) =~= (seq![f] + below) + t.dirs_from(d, j + 1, depth));
    } else {
        assert(t.dirs_from(d, j, depth) =~= Seq::<usize>::empty() + t.dirs_from(d, j + 1, depth));
    }
}

/// Every entry that the walk meets is a child of some directory.
pub proof fn lemma_walk_children(t: Tree, d: usize, j: int, depth: nat, x: usize)
    requires
        t.linked(),
        t.walk_from(d, j, depth).contains(x),
    ensures
        is_child(t, x),
    decreases depth, t.dirs[d as int].children.len() - j,
{
    if d < t.dirs.len() && 0 <= j < t.dirs[d as int].children.len() {
        lemma_walk_step(t, d, j, depth);
        let c = t.dirs[d as int].children[j];
        let below = walk_below(t, d, j, depth);
        let rest = t.walk_from(d, j + 1, depth);
        lemma_contains_add(seq![c] + below, rest, x);
        lemma_contains_add(seq![c], below, x);
        if rest.contains(x) {
            lemma_walk_children(t, d, j + 1, depth, x);
        } else if below.contains(x) {
            lemma_walk_children(t, t.entries[c as int].folder.unwrap(), 0, (depth - 1) as nat, x);
        } else {
            assert(seq![c][0] == x);
            assert(t.dirs[d as int].children[j] == x);
        }
    }
}

/// The walk meets every child of a directory from which it starts.
pub proof fn lemma_children_walked(t: Tree, d: usize, j: int, depth: nat, k: int)
    requires
        d < t.dirs.len(),
        0 <= j <= k < t.dirs[d as int].children.len(),
    ensures
        t.walk_from(d, j, depth).contains(t.dirs[d as int].children[k]),
    decreases k - j,
{
    lemma_walk_step(t, d, j, depth);
    let c = t.dirs[d as int].children[j];
    let below = walk_below(t, d, j, depth);
    let rest = t.walk_from(d, j + 1, depth);
    let x = t.dirs[d as int].children[k];
    lemma_contains_add(seq![c] + below, rest, x);
    lemma_contains_add(seq![c], below, x);
    if j == k {
        assert(seq![c][0] == x);
    } else {
        lemma_children_walked(t, d, j + 1, depth, k);
    }
}

/// The walk lists the directory of every link that it meets.
pub proof fn lemma_links_listed(t: Tree, d: usize, j: int, depth: nat, c: usize, f: usize)
    requires
        t.walk_from(d, j, depth).contains(c),
        links_to(t, c, f),
    ensures
        t.dirs_from(d, j, depth).contains(f),
    decreases depth, t.dirs[d as int].children.len() - j,
{
    if d < t.dirs.len() && 0 <= j < t.dirs[d as int].children.len() {
        lemma_walk_step(t, d, j, depth);
        let first = t.dirs[d as int].children[j];
        let below = walk_below(t, d, j, depth);
        let rest = t.walk_from(d, j + 1, depth);
        let listed = dirs_below(t, d, j, depth);
        lemma_contains_add(seq![first] + below, rest, c);
        lemma_contains_add(seq![first], below, c);
        lemma_contains_add(listed, t.dirs_from(d, j + 1, depth), f);
        if rest.contains(c) {
            lemma_links_listed(t, d, j + 1, depth, c, f);
        } else if below.contains(c) {
            let g = t.entries[first as int].folder.unwrap();
            lemma_links_listed(t, g, 0, (depth - 1) as nat, c, f);
            lemma_contains_add(seq![g], t.dirs_from(g, 0, (depth - 1) as nat), f);
        } else {
            assert(seq![first][0] == c);
            assert(listed[0] == f);
        }
    }
}

/// The walk meets a link to every directory that it lists.
pub proof fn lemma_listed_linked(t: Tree, d: usize, j: int, depth: nat, f: usize)
    requires
        t.dirs_from(d, j, depth).contains(f),
    ensures
        exists|k: int|
            0 <= k < t.walk_from(d, j, depth).len() && links_to(t, #[trigger] t.walk_from(d, j, depth)[k], f),
    decreases depth, t.dirs[d as int].children.len() - j,
{
    if d < t.dirs.len() && 0 <= j < t.dirs[d as int].children.len() {
        lemma_walk_step(t, d, j, depth);
        let first = t.dirs[d as int].children[j];
        let below = walk_below(t, d, j, depth);
        let rest = t.walk_from(d, j + 1, depth);
        let listed = dirs_below(t, d, j, depth);
        let whole = t.walk_from(d, j, depth);
        lemma_contains_add(listed, t.dirs_from(d, j + 1, depth), f);
        if t.dirs_from(d, j + 1, depth).contains(f) {
            lemma_listed_linked(t, d, j + 1, depth, f);
            let k = choose|k: int| 0 <= k < rest.len() && links_to(t, #[trigger] rest[k], f);
            assert(whole[1 + below.len() + k] == rest[k]);
        } else {
            let g = t.entries[first as int].folder.unwrap();
            let deeper = if depth > 0 {
                t.dirs_from(g, 0, (depth - 1) as nat)
            } else {
                Seq::<usize>::empty()
            };
            lemma_contains_add(seq![g], deeper, f);
            if deeper.contains(f) {
                lemma_listed_linked(t, g, 0, (depth - 1) as nat, f);
                let k = choose|k: int| 0 <= k < below.len() && links_to(t, #[trigger] below[k], f);
                assert(whole[1 + k] == below[k]);
            } else {
                assert(seq![g][0] == f);
                assert(whole[0] == first);
            }
        }
    }
}

/// Every directory that the walk lists exists.
pub proof fn lemma_dirs_from_valid(t: Tree, d: usize, j: int, depth: nat)
    requires
        t.linked(),
    ensures
        forall|i: int| 0 <= i < t.dirs_from(d, j, depth).len() ==> #[trigger] t.dirs_from(d, j, depth)[i]
            < t.dirs.len(),
    decreases depth, t.dirs[d as int].children.len() - j,
{
    if d < t.dirs.len() && 0 <= j < t.dirs[d as int].children.len() {
        lemma_walk_step(t, d, j, depth);
        let c = t.dirs[d as int].children[j];
        lemma_dirs_from_valid(t, d, j + 1, depth);
        assert(c < t.entries.len());
        if t.is_sub_link(c) && t.entries[c as int].folder is Some {
            let f = t.entries[c as int].folder.unwrap();
            assert(f < t.dirs.len());
            if depth > 0 {
                lemma_dirs_from_valid(t, f, 0, (depth - 1) as nat);
            }
        }
    }
}

/// A list that starts a list without repetitions has none.
pub proof fn lemma_prefix_no_dup(a: Seq<usize>, b: Seq<usize>)
    requires
        (a + b).no_duplicates(),
    ensures
        a.no_duplicates(),
{
    assert forall|i: int, j: int| 0 <= i < a.len() && 0 <= j < a.len() && i != j implies a[i] != a[j] by {
        assert((a + b)[i] == a[i] && (a + b)[j] == a[j]);
    }
}

/// The walk meets the children of every directory that it lists, provided
/// that it lists no directory twice: it does not run out of depth before
/// it has listed every directory.
pub proof fn lemma_listed_expanded(t: Tree, d: usize, j: int, depth: nat, prefix: Seq<usize>, x: usize, k: int)
    requires
        t.linked(),
        (prefix + t.dirs_from(d, j, depth)).no_duplicates(),
        forall|i: int| 0 <= i < prefix.len() ==> #[trigger] prefix[i] < t.dirs.len(),
        prefix.len() + depth >= t.dirs.len() + 1,
        t.dirs_from(d, j, depth).contains(x),
        0 <= k < t.dirs[x as int].children.len(),
    ensures
        t.walk_from(d, j, depth).contains(t.dirs[x as int].children[k]),
    decreases depth, t.dirs[d as int].children.len() - j,
{
    if d < t.dirs.len() && 0 <= j < t.dirs[d as int].children.len() {
        lemma_walk_step(t, d, j, depth);
        let c = t.dirs[d as int].children[j];
        let below = walk_below(t, d, j, depth);
        let rest = t.walk_from(d, j + 1, depth);
        let listed = dirs_below(t, d, j, depth);
        let later = t.dirs_from(d, j + 1, depth);
        let whole = prefix + t.dirs_from(d, j, depth);
        let child = t.dirs[x as int].children[k];
        lemma_contains_add(listed, later, x);
        lemma_contains_add(seq![c] + below, rest, child);
        lemma_contains_add(seq![c], below, child);
        lemma_dirs_from_valid(t, d, j, depth);
        if later.contains(x) {
            let longer = prefix + listed;
            assert(longer + later =~= whole);
            assert forall|i: int| 0 <= i < longer.len() implies #[trigger] longer[i] < t.dirs.len() by {
                if i >= prefix.len() {
                    assert(longer[i] == t.dirs_from(d, j, depth)[i - prefix.len()]);
                }
            }
            lemma_listed_expanded(t, d, j + 1, depth, longer, x, k);
        } else {
            let f = t.entries[c as int].folder.unwrap();
            let deeper = if depth > 0 {
                t.dirs_from(f, 0, (depth - 1) as nat)
            } else {
                Seq::<usize>::empty()
            };
            assert(listed == seq![f] + deeper);
            let longer = prefix + seq![f];
            assert(longer + (deeper + later) =~= whole);
            lemma_prefix_no_dup(longer, deeper + later);
            assert(f < t.dirs.len()) by {
                assert(t.dirs_from(d, j, depth)[0] == f);
            }
            assert forall|i: int| 0 <= i < longer.len() implies #[trigger] longer[i] < t.dirs.len() by {
                if i >= prefix.len() {
                    assert(longer[i] == f);
                }
            }
            lemma_bounded_len(longer, t.dirs.len());
            assert(depth > 0);
            lemma_contains_add(seq![f], deeper, x);
            if deeper.contains(x) {
                assert((longer + deeper) + later =~= whole);
                lemma_prefix_no_dup(longer + deeper, later);
                lemma_listed_expanded(t, f, 0, (depth - 1) as nat, longer, x, k);
            } else {
                assert(seq![f][0] == x);
                lemma_children_walked(t, f, 0, (depth - 1) as nat, k);
            }
        }
    }
}

} // verus!
