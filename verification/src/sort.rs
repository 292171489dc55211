//! What sorting writes into the directories and the entries, once the file
//! table is known.

use vstd::prelude::*;
use crate::archive::{dir_models, file_models};
use crate::nodes::directory::Directory;
use crate::nodes::file::{File, NO_FOLDER};
use crate::tree::Tree;
use crate::walk::{lemma_table_prefix, sorted_kids};

verus! {

/// A value stands only at its own position in a list without repetitions.
pub proof fn lemma_index_of_unique(s: Seq<usize>, k: int)
    requires
        s.no_duplicates(),
        0 <= k < s.len(),
    ensures
        s.index_of(s[k]) == k,
        s.contains(s[k]),
        !s.take(k).contains(s[k]),
{
    assert(s.contains(s[k]));
    if s.take(k).contains(s[k]) {
        let q = s.take(k).index_of(s[k]);
        assert(s[q] == s[k]);
    }
}

/// The number of files among the first `p` entries of the table is at most `p`.
pub proof fn lemma_files_before_bound(t: Tree, table: Seq<usize>, p: int)
    requires
        0 <= p <= table.len(),
    ensures
        t.files_before(table, p) <= p,
    decreases p,
{
    if p > 0 {
        lemma_files_before_bound(t, table, p - 1);
    }
}

/// Of the first `p` entries of a table no more are files than of the first
/// `q`, if `p` is no more than `q`.
pub proof fn lemma_files_before_grows(t: Tree, table: Seq<usize>, p: int, q: int)
    requires
        0 <= p <= q <= table.len(),
    ensures
        t.files_before(table, p) <= t.files_before(table, q),
    decreases q - p,
{
    if p < q {
        lemma_files_before_grows(t, table, p, q - 1);
    }
}

/// Whether every number that sorting gives fits its field, for the table
/// that sorting makes and the starts of the ranges in it.
pub(crate) fn fits(
    nodes: &Vec<File>,
    table: &Vec<usize>,
    firsts: &Vec<usize>,
    sync: bool,
    Ghost(t): Ghost<Tree>,
) -> (ok: bool)
    requires
        t.entries == file_models(nodes@),
        t.sync() == sync,
        table@ == t.sorted_table(),
        forall|p: int| 0 <= p < table@.len() ==> #[trigger] table@[p] < nodes@.len(),
        firsts@.len() == t.dir_order().len(),
        forall|k: int| 0 <= k < firsts@.len() ==> #[trigger] firsts@[k] == t.range_start(k),
    ensures
        ok == t.sortable_size(),
{
    let ghost order = t.dir_order();
    let dirs = firsts.len();
    let entries = table.len();
    let mut k: usize = 0;
    while k < dirs
        invariant
            k <= dirs,
            dirs == firsts@.len(),
            entries == table@.len(),
            order == t.dir_order(),
            table@ == t.sorted_table(),
            dirs == order.len(),
            forall|k: int| 0 <= k < firsts@.len() ==> #[trigger] firsts@[k] == t.range_start(k),
            forall|x: int| 0 <= x < k ==> #[trigger] t.range_start(x) <= 0xFFFF_FFFF,
            forall|x: int| 0 <= x < k ==> #[trigger] t.range_count(x) <= 0xFFFF,
        decreases dirs - k,
    {
        let first = firsts[k];
        let next = if k + 1 < dirs {
            firsts[k + 1]
        } else {
            entries
        };
        proof {
            crate::laws::lemma_range_in_table(t, order, k as int);
            if k + 1 == dirs {
                assert(order.take(k as int + 1) =~= order);
            }
            assert(first == t.range_start(k as int));
            assert(next == first + t.range_count(k as int));
        }
        if first > 0xFFFF_FFFF || next - first > 0xFFFF {
            return false;
        }
        k += 1;
    }
    let mut files: usize = 0;
    let mut p: usize = 0;
    while p < entries
        invariant
            p <= entries,
            entries == table@.len(),
            t.entries == file_models(nodes@),
            table@ == t.sorted_table(),
            forall|p: int| 0 <= p < table@.len() ==> #[trigger] table@[p] < nodes@.len(),
            files == t.files_before(table@, p as int),
            files <= p,
            forall|x: int| 0 <= x < p ==> t.link_fits(#[trigger] table@[x]),
        decreases entries - p,
    {
        let e = table[p];
        assert(nodes@[e as int]@ == t.entries[e as int]);
        if nodes[e].is_dir() {
            match nodes[e].folder {
                Some(f) => {
                    if f >= 0xFFFF_FFFF {
                        assert(!t.link_fits(table@[p as int]));
                        return false;
                    }
                },
                None => {},
            }
        }
        if nodes[e].is_file() {
            files = files + 1;
        }
        p += 1;
    }
    if sync {
        entries <= 0xFFFF
    } else {
        files <= 0xFFFF
    }
}

/// Gives each directory of the order its children as the file table lists
/// them, and its range of the table.
pub(crate) fn apply_dirs(
    folders: &mut Vec<Directory>,
    nodes: &Vec<File>,
    order: &Vec<usize>,
    firsts: &Vec<usize>,
    Ghost(t): Ghost<Tree>,
)
    requires
        t.dirs == dir_models(old(folders)@),
        t.entries == file_models(nodes@),
        t.linked(),
        order@ == t.dir_order(),
        order@.no_duplicates(),
        forall|k: int| 0 <= k < order@.len() ==> #[trigger] order@[k] < old(folders)@.len(),
        firsts@.len() == order@.len(),
        forall|k: int| 0 <= k < order@.len() ==> #[trigger] firsts@[k] == t.table_of(order@.take(k)).len(),
        t.sortable_size(),
    ensures
        dir_models(final(folders)@) == t.sorted().dirs,
        forall|d: int, j: int|
            0 <= d < final(folders)@.len() && 0 <= j < final(folders)@[d].children@.len()
                ==> #[trigger] final(folders)@[d].children@[j] < nodes@.len(),
{
    let n = folders.len();
    let mut k: usize = 0;
    proof {
        assert forall|k: int| 0 <= k < order@.len() implies #[trigger] firsts@[k] <= 0xFFFF_FFFF by {
            assert(t.range_start(k) <= 0xFFFF_FFFF);
        }
        assert forall|k: int| 0 <= k < order@.len() implies #[trigger] t.range_count(k) <= 0xFFFF by {}
        assert forall|x: usize| x < n implies (#[trigger] folders@[x as int])@ == t.dirs[x as int] by {}
        assert forall|d: int, j: int|
            0 <= d < folders@.len() && 0 <= j < folders@[d].children@.len() implies #[trigger] folders@[d].children@[j]
            < nodes@.len() by {
            assert(t.dirs[d].children[j] < t.entries.len());
        }
    }
    while k < order.len()
        invariant
            k <= order@.len(),
            n == folders@.len(),
            n == t.dirs.len(),
            t.entries == file_models(nodes@),
            t.linked(),
            order@ == t.dir_order(),
            order@.no_duplicates(),
            forall|k: int| 0 <= k < order@.len() ==> #[trigger] order@[k] < n,
            firsts@.len() == order@.len(),
            forall|k: int|
                0 <= k < order@.len() ==> #[trigger] firsts@[k] == t.table_of(order@.take(k)).len(),
            forall|k: int| 0 <= k < order@.len() ==> #[trigger] firsts@[k] <= 0xFFFF_FFFF,
            forall|k: int| 0 <= k < order@.len() ==> #[trigger] t.range_count(k) <= 0xFFFF,
            forall|x: usize|
                x < n ==> (#[trigger] folders@[x as int])@ == (if order@.take(k as int).contains(x) {
                    t.sorted_dir(x, order@.index_of(x))
                } else {
                    t.dirs[x as int]
                }),
            forall|d: int, j: int|
                0 <= d < folders@.len() && 0 <= j < folders@[d].children@.len()
                    ==> #[trigger] folders@[d].children@[j] < nodes@.len(),
        decreases order@.len() - k,
    {
        let d = order[k];
        proof {
            lemma_index_of_unique(order@, k as int);
            assert(folders@[d as int]@ == t.dirs[d as int]);
            lemma_table_prefix(t, order@, k as int);
            lemma_table_prefix(t, order@, k as int + 1);
            assert(order@.take(k as int + 1).drop_last() =~= order@.take(k as int));
            assert(t.range_count(k as int) <= 0xFFFF);
        }
        let kids = sorted_kids(folders, nodes, d, Ghost(t));
        let first: u32 = firsts[k] as u32;
        let count: u16 = kids.len() as u16;
        let ghost before = folders@;
        folders[d].children = kids;
        folders[d].node.file_off = first;
        folders[d].node.file_count = count;
        proof {
            assert(folders@[d as int]@ == t.sorted_dir(d, k as int));
            assert forall|x: usize| x < n implies (#[trigger] folders@[x as int])@ == (if order@.take(
                k as int + 1,
            ).contains(x) {
                t.sorted_dir(x, order@.index_of(x))
            } else {
                t.dirs[x as int]
            }) by {
                if x == d {
                    assert(order@.take(k as int + 1)[k as int] == d);
                } else {
                    assert(folders@[x as int] == before[x as int]);
                    if order@.take(k as int).contains(x) {
                        let q = order@.take(k as int).index_of(x);
                        assert(order@.take(k as int + 1)[q] == x);
                    } else if order@.take(k as int + 1).contains(x) {
                        let q = order@.take(k as int + 1).index_of(x);
                        assert(order@.take(k as int)[q] == x);
                    }
                }
            }
            assert forall|e: int, j: int|
                0 <= e < folders@.len() && 0 <= j < folders@[e].children@.len() implies #[trigger] folders@[e].children@[j]
                < nodes@.len() by {
                if e != d as int {
                    assert(folders@[e] == before[e]);
                    assert(before[e].children@[j] < nodes@.len());
                }
            }
        }
        k += 1;
    }
    proof {
        assert(order@.take(order@.len() as int) =~= order@);
        assert forall|x: int| 0 <= x < n implies dir_models(folders@)[x] == t.sorted().dirs[x] by {
            assert(folders@[(x as usize) as int]@ == dir_models(folders@)[x]);
        }
        assert(dir_models(folders@) =~= t.sorted().dirs);
    }
}

/// Writes into each entry of the table what sorting gives it: a directory
/// entry the position of its directory, a file its id. Returns the next
/// free id.
pub(crate) fn apply_entries(nodes: &mut Vec<File>, table: &Vec<usize>, sync: bool, Ghost(t): Ghost<Tree>) -> (next:
    u16)
    requires
        t.entries == file_models(old(nodes)@),
        t.linked(),
        t.sync() == sync,
        table@ == t.sorted_table(),
        table@.no_duplicates(),
        forall|p: int| 0 <= p < table@.len() ==> #[trigger] table@[p] < old(nodes)@.len(),
        t.sortable_size(),
    ensures
        file_models(final(nodes)@) == t.sorted().entries,
        next == t.sorted_next_id(),
{
    let n = nodes.len();
    let mut counter: u16 = 0;
    let mut p: usize = 0;
    proof {
        assert forall|x: usize| x < n implies (#[trigger] nodes@[x as int])@ == t.entries[x as int] by {}
    }
    while p < table.len()
        invariant
            p <= table@.len(),
            n == nodes@.len(),
            n == t.entries.len(),
            t.linked(),
            t.sync() == sync,
            table@ == t.sorted_table(),
            table@.no_duplicates(),
            forall|p: int| 0 <= p < table@.len() ==> #[trigger] table@[p] < n,
            t.sortable_size(),
            counter == t.files_before(table@, p as int),
            forall|x: usize|
                x < n ==> (#[trigger] nodes@[x as int])@ == (if table@.take(p as int).contains(x) {
                    t.sorted_entry(x, table@.index_of(x))
                } else {
                    t.entries[x as int]
                }),
        decreases table@.len() - p,
    {
        let e = table[p];
        proof {
            lemma_index_of_unique(table@, p as int);
            lemma_files_before_bound(t, table@, p as int);
            lemma_files_before_bound(t, table@, p as int + 1);
            lemma_files_before_grows(t, table@, p as int + 1, table@.len() as int);
            lemma_files_before_bound(t, table@, table@.len() as int);
            assert(t.files_before(table@, p as int + 1) <= 0xFFFF);
            assert(t.link_fits(table@[p as int]));
            assert(nodes@[e as int]@ == t.entries[e as int]);
        }
        let ghost before = nodes@;
        let is_dir = nodes[e].is_dir();
        let is_file = nodes[e].is_file();
        if is_dir {
            let link: u32 = match nodes[e].folder {
                Some(f) => f as u32,
                None => NO_FOLDER,
            };
            nodes[e].node.data = link;
        }
        if is_file {
            let id: u16 = if sync {
                p as u16
            } else {
                counter
            };
            nodes[e].node.id = id;
            counter = counter + 1;
        }
        proof {
            assert(nodes@[e as int]@ == t.sorted_entry(e, p as int));
            assert forall|x: usize| x < n implies (#[trigger] nodes@[x as int])@ == (if table@.take(
                p as int + 1,
            ).contains(x) {
                t.sorted_entry(x, table@.index_of(x))
            } else {
                t.entries[x as int]
            }) by {
                if x == e {
                    assert(table@.take(p as int + 1)[p as int] == e);
                } else {
                    assert(nodes@[x as int] == before[x as int]);
                    if table@.take(p as int).contains(x) {
                        let q = table@.take(p as int).index_of(x);
                        assert(table@.take(p as int + 1)[q] == x);
                    } else if table@.take(p as int + 1).contains(x) {
                        let q = table@.take(p as int + 1).index_of(x);
                        assert(table@.take(p as int)[q] == x);
                    }
                }
            }
        }
        p += 1;
    }
    proof {
        assert(table@.take(table@.len() as int) =~= table@);
        assert forall|x: int| 0 <= x < n implies file_models(nodes@)[x] == t.sorted().entries[x] by {
            assert(nodes@[(x as usize) as int]@ == file_models(nodes@)[x]);
        }
        assert(file_models(nodes@) =~= t.sorted().entries);
    }
    if sync {
        table.len() as u16
    } else {
        counter
    }
}

} // verus!
