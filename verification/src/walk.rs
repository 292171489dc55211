//! The depth-first walk over the directories of an archive.

use vstd::prelude::*;
use crate::archive::{dir_models, file_models};
use crate::nodes::directory::Directory;
use crate::nodes::file::File;
use crate::tree::Tree;

verus! {

/// A list of directories that cannot be part of a strict tree: it names a
/// directory twice, or one of its directories holds a link that names no
/// directory.
pub open spec fn broken(t: Tree, list: Seq<usize>) -> bool {
    !list.no_duplicates() || exists|k: int| 0 <= k < list.len() && t.has_dangling(#[trigger] list[k])
}

/// A list that starts with a broken list is broken.
pub proof fn lemma_broken_extends(t: Tree, a: Seq<usize>, b: Seq<usize>)
    requires
        broken(t, a),
    ensures
        broken(t, a + b),
{
    if !a.no_duplicates() {
        let (i, j) = choose|i: int, j: int| 0 <= i < a.len() && 0 <= j < a.len() && i != j && a[i] == a[j];
        assert((a + b)[i] == (a + b)[j]);
    } else {
        let k = choose|k: int| 0 <= k < a.len() && t.has_dangling(#[trigger] a[k]);
        assert((a + b)[k] == a[k]);
    }
}

/// A list without repetitions whose members are all below `n` has at most
/// `n` members.
pub proof fn lemma_bounded_len(s: Seq<usize>, n: nat)
    requires
        s.no_duplicates(),
        forall|k: int| 0 <= k < s.len() ==> #[trigger] s[k] < n,
    ensures
        s.len() <= n,
    decreases n,
{
    if s.len() == 0 {
    } else if n == 0 {
        assert(s[0] < n);
    } else {
        let top = (n - 1) as usize;
        if s.contains(top) {
            let i = s.index_of(top);
            let r = s.remove(i);
            assert forall|k: int| 0 <= k < r.len() implies #[trigger] r[k] < n - 1 by {
                if k < i {
                    assert(r[k] == s[k]);
                } else {
                    assert(r[k] == s[k + 1]);
                }
            }
            assert forall|a: int, b: int| 0 <= a < r.len() && 0 <= b < r.len() && a != b implies r[a]
                != r[b] by {
                let a2 = if a < i {
                    a
                } else {
                    a + 1
                };
                let b2 = if b < i {
                    b
                } else {
                    b + 1
                };
                assert(r[a] == s[a2] && r[b] == s[b2]);
            }
            lemma_bounded_len(r, (n - 1) as nat);
        } else {
            assert forall|k: int| 0 <= k < s.len() implies #[trigger] s[k] < n - 1 by {
                assert(s.contains(s[k]));
            }
            lemma_bounded_len(s, (n - 1) as nat);
        }
    }
}

/// A list without repetitions stays one when a value that it lacks is added.
pub proof fn lemma_push_no_dup(s: Seq<usize>, x: usize)
    requires
        s.no_duplicates(),
        !s.contains(x),
    ensures
        s.push(x).no_duplicates(),
{
    assert forall|a: int, b: int|
        0 <= a < s.push(x).len() && 0 <= b < s.push(x).len() && a != b implies s.push(x)[a] != s.push(
        x,
    )[b] by {
        if a < s.len() {
            assert(s.contains(s[a]));
        }
        if b < s.len() {
            assert(s.contains(s[b]));
        }
    }
}

/// Walks the directories beneath `d`, which `order` lists already, and
/// appends them to `order` as it meets them. Stops with `false` at a
/// directory that `order` lists already, and at a link that names none.
fn visit(
    folders: &Vec<Directory>,
    nodes: &Vec<File>,
    d: usize,
    order: &mut Vec<usize>,
    seen: &mut Vec<bool>,
    Ghost(t): Ghost<Tree>,
    Ghost(depth): Ghost<nat>,
) -> (ok: bool)
    requires
        t.dirs == dir_models(folders@),
        t.entries == file_models(nodes@),
        t.linked(),
        d < folders@.len(),
        old(order)@.contains(d),
        old(order)@.no_duplicates(),
        forall|k: int| 0 <= k < old(order)@.len() ==> #[trigger] old(order)@[k] < folders@.len(),
        old(seen)@.len() == folders@.len(),
        forall|x: usize| x < folders@.len() ==> old(seen)@[x as int] == old(order)@.contains(x),
        old(order)@.len() + depth >= folders@.len() + 1,
    ensures
        final(seen)@.len() == folders@.len(),
        ok ==> {
            &&& final(order)@ == old(order)@ + t.dirs_from(d, 0, depth)
            &&& final(order)@.no_duplicates()
            &&& forall|k: int| 0 <= k < final(order)@.len() ==> #[trigger] final(order)@[k] < folders@.len()
            &&& forall|x: usize|
                x < folders@.len() ==> final(seen)@[x as int] == final(order)@.contains(x)
            &&& !t.has_dangling(d)
            &&& forall|k: int|
                old(order)@.len() <= k < final(order)@.len() ==> !t.has_dangling(#[trigger] final(order)@[k])
        },
        !ok ==> broken(t, old(order)@ + t.dirs_from(d, 0, depth)),
    decreases folders@.len() - old(order)@.len(),
{
    let ghost n = folders@.len();
    let ghost start = order@;
    let ghost whole = start + t.dirs_from(d, 0, depth);
    let count = folders[d].children.len();
    assert(t.dirs[d as int].children == folders@[d as int].children@);
    let mut j: usize = 0;
    while j < count
        invariant
            j <= count,
            count == t.dirs[d as int].children.len(),
            t.dirs == dir_models(folders@),
            t.entries == file_models(nodes@),
            t.linked(),
            d < folders@.len(),
            n == folders@.len(),
            start == old(order)@,
            whole == start + t.dirs_from(d, 0, depth),
            order@ + t.dirs_from(d, j as int, depth) == whole,
            start.len() <= order@.len(),
            order@.take(start.len() as int) == start,
            start.contains(d),
            order@.no_duplicates(),
            forall|k: int| 0 <= k < order@.len() ==> #[trigger] order@[k] < n,
            seen@.len() == n,
            forall|x: usize| x < n ==> seen@[x as int] == order@.contains(x),
            start.len() + depth >= n + 1,
            forall|jj: int|
                0 <= jj < j ==> !(t.is_sub_link(#[trigger] t.dirs[d as int].children[jj])
                    && t.entries[t.dirs[d as int].children[jj] as int].folder is None),
            forall|k: int| start.len() <= k < order@.len() ==> !t.has_dangling(#[trigger] order@[k]),
        decreases count - j,
    {
        let c = folders[d].children[j];
        assert(c == t.dirs[d as int].children[j as int]);
        assert(c < nodes@.len());
        let file = &nodes[c];
        assert(file@ == t.entries[c as int]);
        if file.is_dir() && !file.is_shortcut() {
            match file.folder {
                None => {
                    proof {
                        assert(t.has_dangling(d));
                        let k = start.index_of(d);
                        assert(whole[k] == d);
                    }
                    return false;
                },
                Some(f) => {
                    assert(f < n);
                    let ghost before = order@;
                    let ghost rest = t.dirs_from(d, j as int + 1, depth);
                    let ghost below = if depth > 0 {
                        t.dirs_from(f, 0, (depth - 1) as nat)
                    } else {
                        Seq::<usize>::empty()
                    };
                    assert(t.dirs_from(d, j as int, depth) == seq![f] + below + rest);
                    if seen[f] {
                        proof {
                            let i = before.index_of(f);
                            let list = before + seq![f];
                            assert(list[i] == list[before.len() as int]);
                            assert(broken(t, list));
                            lemma_broken_extends(t, list, below + rest);
                            assert(list + (below + rest) =~= whole);
                        }
                        return false;
                    }
                    proof {
                        lemma_push_no_dup(before, f);
                    }
                    order.push(f);
                    seen[f] = true;
                    proof {
                        assert(order@ =~= before + seq![f]);
                        assert forall|x: usize| x < n implies seen@[x as int] == order@.contains(x) by {
                            if x == f {
                                assert(order@[before.len() as int] == f);
                            } else if before.contains(x) {
                                let k = before.index_of(x);
                                assert(order@[k] == x);
                            } else if order@.contains(x) {
                                let k = order@.index_of(x);
                                assert(before[k] == x);
                            }
                        }
                        lemma_bounded_len(order@, n);
                        assert(depth > 0);
                    }
                    let ok = visit(folders, nodes, f, order, seen, Ghost(t), Ghost((depth - 1) as nat));
                    if !ok {
                        proof {
                            let list = before + seq![f] + below;
                            lemma_broken_extends(t, list, rest);
                            assert(list + rest =~= whole);
                        }
                        return false;
                    }
                    proof {
                        assert(order@ =~= before + seq![f] + below);
                        assert(order@ + rest =~= whole);
                        assert(order@.take(start.len() as int) =~= start);
                        assert forall|k: int| start.len() <= k < order@.len() implies !t.has_dangling(
                            #[trigger] order@[k],
                        ) by {
                            if k < before.len() {
                                assert(order@[k] == before[k]);
                            } else if k == before.len() {
                            } else {
                            }
                        }
                    }
                },
            }
        } else {
            assert(t.dirs_from(d, j as int, depth) == t.dirs_from(d, j as int + 1, depth));
        }
        j += 1;
    }
    proof {
        assert(t.dirs_from(d, count as int, depth) =~= Seq::<usize>::empty());
        assert(order@ =~= whole);
        assert(!t.has_dangling(d));
        assert forall|k: int| start.len() <= k < order@.len() implies !t.has_dangling(#[trigger] order@[k]) by {}
    }
    true
}

/// Every member of a filtered list is a member of the list.
pub proof fn lemma_filter_members(s: Seq<usize>, pred: spec_fn(usize) -> bool)
    ensures
        forall|i: int| 0 <= i < s.filter(pred).len() ==> s.contains(#[trigger] s.filter(pred)[i]),
    decreases s.len(),
{
    reveal(Seq::filter);
    if s.len() > 0 {
        lemma_filter_members(s.drop_last(), pred);
        assert forall|i: int| 0 <= i < s.filter(pred).len() implies s.contains(
            #[trigger] s.filter(pred)[i],
        ) by {
            let sub = s.drop_last().filter(pred);
            if i < sub.len() {
                assert(s.drop_last().contains(sub[i]));
                let k = s.drop_last().index_of(sub[i]);
                assert(s[k] == sub[i]);
            } else {
                assert(s[s.len() - 1] == s.filter(pred)[i]);
            }
        }
    }
}

/// Filtering a list that has one more member: the member is kept if it
/// passes the test.
pub proof fn lemma_filter_step(s: Seq<usize>, j: int, pred: spec_fn(usize) -> bool)
    requires
        0 <= j < s.len(),
    ensures
        s.take(j + 1).filter(pred) == if pred(s[j]) {
            s.take(j).filter(pred).push(s[j])
        } else {
            s.take(j).filter(pred)
        },
{
    reveal(Seq::filter);
    assert(s.take(j + 1).drop_last() =~= s.take(j));
}

/// The directories in the order of the file table, or `None` if the walk
/// from the root meets a directory twice or a link that names none.
pub(crate) fn dir_order(folders: &Vec<Directory>, nodes: &Vec<File>, Ghost(t): Ghost<Tree>) -> (res: Option<
    Vec<usize>,
>)
    requires
        t.dirs == dir_models(folders@),
        t.entries == file_models(nodes@),
        t.linked(),
    ensures
        match res {
            Some(order) => {
                &&& order@ == t.dir_order()
                &&& !broken(t, t.dir_order())
                &&& forall|k: int| 0 <= k < order@.len() ==> #[trigger] order@[k] < folders@.len()
            },
            None => broken(t, t.dir_order()),
        },
{
    let n = folders.len();
    let mut order: Vec<usize> = Vec::new();
    if n == 0 {
        assert(order@ =~= t.dir_order());
        return Some(order);
    }
    let mut seen: Vec<bool> = Vec::new();
    let mut i: usize = 0;
    while i < n
        invariant
            i <= n,
            seen@.len() == i,
            forall|x: int| 0 <= x < i ==> !seen@[x],
        decreases n - i,
    {
        seen.push(false);
        i += 1;
    }
    order.push(0);
    seen[0] = true;
    proof {
        assert(order@ =~= seq![0usize]);
        assert(order@[0] == 0usize);
        assert forall|x: usize| x < n implies seen@[x as int] == order@.contains(x) by {
            if order@.contains(x) {
                let k = order@.index_of(x);
                assert(order@[k] == x);
            }
        }
    }
    let ok = visit(folders, nodes, 0, &mut order, &mut seen, Ghost(t), Ghost(n as nat));
    if ok {
        proof {
            assert(order@ =~= t.dir_order());
        }
        Some(order)
    } else {
        None
    }
}

/// The children of `d` as the file table lists them.
pub(crate) fn sorted_kids(folders: &Vec<Directory>, nodes: &Vec<File>, d: usize, Ghost(t): Ghost<Tree>) -> (kids:
    Vec<usize>)
    requires
        t.dirs.len() == folders@.len(),
        d < folders@.len(),
        t.dirs[d as int].children == folders@[d as int].children@,
        forall|x: int|
            0 <= x < nodes@.len() ==> (#[trigger] nodes@[x])@.is_shortcut() == t.entries[x].is_shortcut(),
        t.entries.len() == nodes@.len(),
        t.linked(),
    ensures
        kids@ == t.sorted_children(d),
        forall|i: int| 0 <= i < kids@.len() ==> #[trigger] kids@[i] < nodes@.len(),
{
    let ghost children = t.dirs[d as int].children;
    let count = folders[d].children.len();
    let mut kids: Vec<usize> = Vec::new();
    let mut j: usize = 0;
    proof {
        reveal(Seq::filter);
        assert(children.take(0) =~= Seq::<usize>::empty());
    }
    while j < count
        invariant
            j <= count,
            count == children.len(),
            children == t.dirs[d as int].children,
            children == folders@[d as int].children@,
            d < folders@.len(),
            t.dirs.len() == folders@.len(),
            forall|x: int|
                0 <= x < nodes@.len() ==> (#[trigger] nodes@[x])@.is_shortcut() == t.entries[x].is_shortcut(),
            t.entries.len() == nodes@.len(),
            t.linked(),
            kids@ == children.take(j as int).filter(t.no_shortcut()),
            forall|i: int| 0 <= i < kids@.len() ==> #[trigger] kids@[i] < nodes@.len(),
        decreases count - j,
    {
        let c = folders[d].children[j];
        assert(c == t.dirs[d as int].children[j as int]);
        assert(c < nodes@.len());
        proof {
            lemma_filter_step(children, j as int, t.no_shortcut());
        }
        if !nodes[c].is_shortcut() {
            kids.push(c);
        }
        j += 1;
    }
    assert(children.take(count as int) =~= children);
    let ghost first = kids@;
    j = 0;
    proof {
        reveal(Seq::filter);
        assert(children.take(0) =~= Seq::<usize>::empty());
        assert(kids@ =~= first + children.take(0).filter(t.shortcut()));
    }
    while j < count
        invariant
            j <= count,
            count == children.len(),
            children == t.dirs[d as int].children,
            children == folders@[d as int].children@,
            d < folders@.len(),
            t.dirs.len() == folders@.len(),
            forall|x: int|
                0 <= x < nodes@.len() ==> (#[trigger] nodes@[x])@.is_shortcut() == t.entries[x].is_shortcut(),
            t.entries.len() == nodes@.len(),
            t.linked(),
            first == children.filter(t.no_shortcut()),
            kids@ == first + children.take(j as int).filter(t.shortcut()),
            forall|i: int| 0 <= i < kids@.len() ==> #[trigger] kids@[i] < nodes@.len(),
        decreases count - j,
    {
        let c = folders[d].children[j];
        assert(c == t.dirs[d as int].children[j as int]);
        assert(c < nodes@.len());
        proof {
            lemma_filter_step(children, j as int, t.shortcut());
        }
        if nodes[c].is_shortcut() {
            kids.push(c);
            assert(kids@ =~= first + children.take(j as int + 1).filter(t.shortcut()));
        }
        j += 1;
    }
    assert(children.take(count as int) =~= children);
    kids
}

/// The table of the first `k` directories is the start of the table of all.
pub proof fn lemma_table_prefix(t: Tree, order: Seq<usize>, k: int)
    requires
        0 <= k <= order.len(),
    ensures
        t.table_of(order.take(k)).len() <= t.table_of(order).len(),
        t.table_of(order).take(t.table_of(order.take(k)).len() as int) == t.table_of(order.take(k)),
    decreases order.len() - k,
{
    if k == order.len() {
        assert(order.take(k) =~= order);
        assert(t.table_of(order).take(t.table_of(order).len() as int) =~= t.table_of(order));
    } else {
        lemma_table_prefix(t, order, k + 1);
        assert(order.take(k + 1).drop_last() =~= order.take(k));
        assert(t.table_of(order).take(t.table_of(order.take(k)).len() as int) =~= t.table_of(
            order.take(k),
        ));
    }
}

/// A list that starts with a repetition holds one.
pub proof fn lemma_dup_in_prefix(whole: Seq<usize>, n: int)
    requires
        0 <= n <= whole.len(),
        !whole.take(n).no_duplicates(),
    ensures
        !whole.no_duplicates(),
{
    let p = whole.take(n);
    let (i, j) = choose|i: int, j: int| 0 <= i < p.len() && 0 <= j < p.len() && i != j && p[i] == p[j];
    assert(whole[i] == whole[j]);
}

/// The file table that lists the children of the directories of `order`,
/// and for each directory where its children start in it. `None` if the
/// table would list an entry twice.
pub(crate) fn build_table(
    folders: &Vec<Directory>,
    nodes: &Vec<File>,
    order: &Vec<usize>,
    Ghost(t): Ghost<Tree>,
) -> (res: Option<(Vec<usize>, Vec<usize>)>)
    requires
        t.dirs == dir_models(folders@),
        t.entries == file_models(nodes@),
        t.linked(),
        forall|k: int| 0 <= k < order@.len() ==> #[trigger] order@[k] < folders@.len(),
    ensures
        match res {
            Some((table, firsts)) => {
                &&& table@ == t.table_of(order@)
                &&& table@.no_duplicates()
                &&& forall|p: int| 0 <= p < table@.len() ==> #[trigger] table@[p] < nodes@.len()
                &&& firsts@.len() == order@.len()
                &&& forall|k: int|
                    0 <= k < order@.len() ==> #[trigger] firsts@[k] == t.table_of(order@.take(k)).len()
            },
            None => !t.table_of(order@).no_duplicates(),
        },
{
    let n = nodes.len();
    let mut used: Vec<bool> = Vec::new();
    let mut i: usize = 0;
    while i < n
        invariant
            i <= n,
            used@.len() == i,
            forall|x: int| 0 <= x < i ==> !used@[x],
        decreases n - i,
    {
        used.push(false);
        i += 1;
    }
    let mut table: Vec<usize> = Vec::new();
    let mut firsts: Vec<usize> = Vec::new();
    let mut k: usize = 0;
    proof {
        assert(order@.take(0) =~= Seq::<usize>::empty());
        assert forall|x: usize| x < n implies used@[x as int] == table@.contains(x) by {
            if table@.contains(x) {
                let q = table@.index_of(x);
                assert(table@[q] == x);
            }
        }
    }
    while k < order.len()
        invariant
            k <= order@.len(),
            n == nodes@.len(),
            t.dirs == dir_models(folders@),
            t.entries == file_models(nodes@),
            t.linked(),
            forall|k: int| 0 <= k < order@.len() ==> #[trigger] order@[k] < folders@.len(),
            table@ == t.table_of(order@.take(k as int)),
            table@.no_duplicates(),
            forall|p: int| 0 <= p < table@.len() ==> #[trigger] table@[p] < n,
            used@.len() == n,
            forall|x: usize| x < n ==> used@[x as int] == table@.contains(x),
            firsts@.len() == k,
            forall|kk: int| 0 <= kk < k ==> #[trigger] firsts@[kk] == t.table_of(order@.take(kk)).len(),
        decreases order@.len() - k,
    {
        let d = order[k];
        let kids = sorted_kids(folders, nodes, d, Ghost(t));
        let ghost base = table@;
        proof {
            assert(order@.take(k as int + 1).drop_last() =~= order@.take(k as int));
            assert(t.table_of(order@.take(k as int + 1)) == base + kids@);
        }
        firsts.push(table.len());
        let mut m: usize = 0;
        while m < kids.len()
            invariant
                m <= kids@.len(),
                n == nodes@.len(),
                k < order@.len(),
                table@ == base + kids@.take(m as int),
                table@.no_duplicates(),
                forall|p: int| 0 <= p < table@.len() ==> #[trigger] table@[p] < n,
                forall|i: int| 0 <= i < kids@.len() ==> #[trigger] kids@[i] < n,
                used@.len() == n,
                forall|x: usize| x < n ==> used@[x as int] == table@.contains(x),
                t.table_of(order@.take(k as int + 1)) == base + kids@,
            decreases kids@.len() - m,
        {
            let c = kids[m];
            let ghost before = table@;
            if used[c] {
                proof {
                    let q = before.index_of(c);
                    let list = before.push(c);
                    assert(list[q] == list[before.len() as int]);
                    assert(!list.no_duplicates());
                    assert(list =~= base + kids@.take(m as int + 1));
                    let next = t.table_of(order@.take(k as int + 1));
                    assert(next.take(list.len() as int) =~= list);
                    lemma_dup_in_prefix(next, list.len() as int);
                    lemma_table_prefix(t, order@, k as int + 1);
                    lemma_dup_in_prefix(t.table_of(order@), next.len() as int);
                }
                return None;
            }
            proof {
                lemma_push_no_dup(before, c);
            }
            table.push(c);
            used[c] = true;
            proof {
                assert(table@ =~= base + kids@.take(m as int + 1));
                assert forall|x: usize| x < n implies used@[x as int] == table@.contains(x) by {
                    if x == c {
                        assert(table@[before.len() as int] == c);
                    } else if before.contains(x) {
                        let q = before.index_of(x);
                        assert(table@[q] == x);
                    } else if table@.contains(x) {
                        let q = table@.index_of(x);
                        assert(before[q] == x);
                    }
                }
            }
            m += 1;
        }
        proof {
            assert(kids@.take(kids@.len() as int) =~= kids@);
        }
        k += 1;
    }
    proof {
        assert(order@.take(order@.len() as int) =~= order@);
    }
    Some((table, firsts))
}

} // verus!
