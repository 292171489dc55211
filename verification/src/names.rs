//! The names of an archive on their way into the string table.

use vstd::prelude::*;
use vstd::string::*;
use crate::archive::{dir_models, file_models};
use crate::nodes::directory::{Directory, DirModel, NodeModel};
use crate::nodes::file::{dot, dot_name, dotdot, File, FileModel, is_dot_name};
use crate::roundtrip::clean_text;
use crate::text::str_eq;
use crate::table::{after_add, find, has_room, lemma_find_stable, Table};
use crate::tree::{dot_text, dotdot_text, Tree};

verus! {

/// The bytes of the name `.` are one full stop, those of `..` two.
pub proof fn lemma_dot_bytes()
    ensures
        vstd::utf8::encode_utf8(dot_text()) == dot(),
        vstd::utf8::encode_utf8(dotdot_text()) == dotdot(),
{
    let a = dot_text();
    let b = dotdot_text();
    assert(vstd::utf8::is_ascii_chars(a));
    assert(vstd::utf8::is_ascii_chars(b));
    vstd::utf8::is_ascii_chars_encode_utf8(a);
    vstd::utf8::is_ascii_chars_encode_utf8(b);
    assert(vstd::utf8::encode_utf8(a) =~= dot());
    assert(vstd::utf8::encode_utf8(b) =~= dotdot());
}

/// Appends to `out` the entries beneath `d` in the order of a depth-first
/// walk that goes down at most `depth` levels.
pub(crate) fn walk_entries(
    folders: &Vec<Directory>,
    nodes: &Vec<File>,
    d: usize,
    depth: usize,
    out: &mut Vec<usize>,
    Ghost(t): Ghost<Tree>,
)
    requires
        t.dirs == dir_models(folders@),
        t.entries == file_models(nodes@),
        t.linked(),
        d < folders@.len(),
        forall|k: int| 0 <= k < old(out)@.len() ==> #[trigger] old(out)@[k] < nodes@.len(),
    ensures
        final(out)@ == old(out)@ + t.walk_from(d, 0, depth as nat),
        forall|k: int| 0 <= k < final(out)@.len() ==> #[trigger] final(out)@[k] < nodes@.len(),
    decreases depth,
{
    let ghost whole = out@ + t.walk_from(d, 0, depth as nat);
    let count = folders[d].children.len();
    assert(t.dirs[d as int].children == folders@[d as int].children@);
    let mut j: usize = 0;
    while j < count
        invariant
            j <= count,
            count == t.dirs[d as int].children.len(),
            t.dirs == dir_models(folders@),
            t.entries == file_models(nodes@),
            t.linked(),
            d < folders@.len(),
            out@ + t.walk_from(d, j as int, depth as nat) == whole,
            forall|k: int| 0 <= k < out@.len() ==> #[trigger] out@[k] < nodes@.len(),
        decreases count - j,
    {
        let c = folders[d].children[j];
        assert(c == t.dirs[d as int].children[j as int]);
        assert(c < nodes@.len());
        let file = &nodes[c];
        assert(file@ == t.entries[c as int]);
        let ghost before = out@;
        let ghost rest = t.walk_from(d, j as int + 1, depth as nat);
        out.push(c);
        let mut descended = false;
        if depth > 0 && file.is_dir() && !file.is_shortcut() {
            match file.folder {
                Some(f) => {
                    assert(f < folders@.len());
                    walk_entries(folders, nodes, f, depth - 1, out, Ghost(t));
                    proof {
                        assert(out@ + rest =~= before + t.walk_from(d, j as int, depth as nat));
                    }
                    descended = true;
                },
                None => {},
            }
        }
        proof {
            if !descended {
                assert(out@ + rest =~= before + t.walk_from(d, j as int, depth as nat));
            }
        }
        j += 1;
    }
    proof {
        assert(t.walk_from(d, count as int, depth as nat) =~= Seq::<usize>::empty());
        assert(out@ =~= whole);
    }
}

/// The entries beneath the root in the order of a depth-first walk.
pub(crate) fn walk(folders: &Vec<Directory>, nodes: &Vec<File>, Ghost(t): Ghost<Tree>) -> (out: Vec<usize>)
    requires
        t.dirs == dir_models(folders@),
        t.entries == file_models(nodes@),
        t.linked(),
    ensures
        out@ == t.walk(),
        forall|k: int| 0 <= k < out@.len() ==> #[trigger] out@[k] < nodes@.len(),
{
    let mut out: Vec<usize> = Vec::new();
    if folders.len() > 0 {
        walk_entries(folders, nodes, 0, folders.len(), &mut out, Ghost(t));
        assert(out@ =~= t.walk());
    } else {
        assert(out@ =~= t.walk());
    }
    out
}

/// The names of a shorter walk fit if those of the whole walk do.
pub proof fn lemma_names_fit_prefix(t: Tree, es: Seq<(u32, Seq<char>)>, walk: Seq<usize>, k: int)
    requires
        0 <= k <= walk.len(),
        t.names_fit(es, walk),
    ensures
        t.names_fit(es, walk.take(k)),
    decreases walk.len() - k,
{
    if k == walk.len() {
        assert(walk.take(k) =~= walk);
    } else {
        lemma_names_fit_prefix(t, es, walk, k + 1);
        assert(walk.take(k + 1).drop_last() =~= walk.take(k));
    }
}

/// Builds the string table from the names of the entries of `walk`, and
/// tells for each of them where its name stands. `None` if a name has no
/// room.
pub(crate) fn name_table(
    nodes: &Vec<File>,
    root_name: &str,
    walk: &Vec<usize>,
    Ghost(t): Ghost<Tree>,
) -> (res: Option<(Table, Vec<u32>)>)
    requires
        t.entries == file_models(nodes@),
        t.root_name() == root_name@,
        walk@ == t.walk(),
        forall|k: int| 0 <= k < walk@.len() ==> #[trigger] walk@[k] < nodes@.len(),
    ensures
        match res {
            Some((table, offs)) => {
                &&& t.names_have_room()
                &&& table@ == t.names_table()
                &&& offs@.len() == walk@.len()
                &&& forall|k: int|
                    0 <= k < walk@.len() ==> #[trigger] offs@[k] == t.name_off_in(table@, walk@[k])
            },
            None => !t.names_have_room(),
        },
{
    let mut table = Table::new();
    proof {
        reveal_strlit(".");
        reveal_strlit("..");
        assert("."@ =~= dot_text());
        assert(".."@ =~= dotdot_text());
    }
    table.add(".");
    assert(has_room(table@, dotdot_text())) by {
        lemma_dot_bytes();
    }
    table.add("..");
    if !table.has_room(root_name) {
        return None;
    }
    table.add(root_name);
    let ghost base = t.base_table();
    assert(table@ == base);
    let mut offs: Vec<u32> = Vec::new();
    let mut k: usize = 0;
    proof {
        assert(walk@.take(0) =~= Seq::<usize>::empty());
    }
    while k < walk.len()
        invariant
            k <= walk@.len(),
            t.entries == file_models(nodes@),
            walk@ == t.walk(),
            forall|k: int| 0 <= k < walk@.len() ==> #[trigger] walk@[k] < nodes@.len(),
            base == t.base_table(),
            has_room(after_add(after_add(Seq::empty(), dot_text()), dotdot_text()), t.root_name()),
            table@ == t.add_names(base, walk@.take(k as int)),
            t.names_fit(base, walk@.take(k as int)),
            offs@.len() == k,
            forall|kk: int| 0 <= kk < k ==> #[trigger] offs@[kk] == t.name_off_in(table@, walk@[kk]),
            forall|kk: int|
                0 <= kk < k ==> is_dot_name(t.entries[#[trigger] walk@[kk] as int].name_bytes()) || find(
                    table@,
                    t.entries[walk@[kk] as int].name,
                ) is Some,
        decreases walk@.len() - k,
    {
        let e = walk[k];
        let file = &nodes[e];
        assert(file@ == t.entries[e as int]);
        let bytes = file.name.as_str().as_bytes();
        let ghost before = table@;
        proof {
            assert(walk@.take(k as int + 1).drop_last() =~= walk@.take(k as int));
        }
        let off: u32 = if dot_name(bytes) {
            if bytes.len() == 1 {
                assert(bytes@ =~= dot());
                0
            } else {
                assert(bytes@ =~= dotdot());
                assert(bytes@ != dot());
                2
            }
        } else {
            if !table.has_room(file.name.as_str()) {
                proof {
                    if t.names_fit(base, walk@) {
                        lemma_names_fit_prefix(t, base, walk@, k as int + 1);
                    }
                }
                return None;
            }
            let off = table.add(file.name.as_str());
            proof {
                assert forall|kk: int| 0 <= kk < k implies #[trigger] offs@[kk] == t.name_off_in(
                    table@,
                    walk@[kk],
                ) by {
                    let other = t.entries[walk@[kk] as int];
                    if !is_dot_name(other.name_bytes()) {
                        lemma_find_stable(before, file@.name, other.name);
                    }
                }
                assert forall|kk: int| 0 <= kk < k implies is_dot_name(
                    t.entries[#[trigger] walk@[kk] as int].name_bytes(),
                ) || find(table@, t.entries[walk@[kk] as int].name) is Some by {
                    let other = t.entries[walk@[kk] as int];
                    if !is_dot_name(other.name_bytes()) {
                        lemma_find_stable(before, file@.name, other.name);
                    }
                }
            }
            off
        };
        offs.push(off);
        k += 1;
    }
    proof {
        assert(walk@.take(walk@.len() as int) =~= walk@);
    }
    Some((table, offs))
}

/// Tells every entry of `walk` where its name stands.
pub(crate) fn name_entries(nodes: &mut Vec<File>, walk: &Vec<usize>, offs: &Vec<u32>, Ghost(t): Ghost<Tree>)
    requires
        t.entries == file_models(old(nodes)@),
        walk@ == t.walk(),
        forall|k: int| 0 <= k < walk@.len() ==> #[trigger] walk@[k] < old(nodes)@.len(),
        offs@.len() == walk@.len(),
        forall|k: int|
            0 <= k < walk@.len() ==> #[trigger] offs@[k] == t.name_off_in(t.names_table(), walk@[k]),
    ensures
        file_models(final(nodes)@) == t.named().entries,
{
    let n = nodes.len();
    let mut k: usize = 0;
    proof {
        assert forall|x: usize| x < n implies (#[trigger] nodes@[x as int])@ == t.entries[x as int] by {}
    }
    while k < walk.len()
        invariant
            k <= walk@.len(),
            n == nodes@.len(),
            n == t.entries.len(),
            walk@ == t.walk(),
            forall|k: int| 0 <= k < walk@.len() ==> #[trigger] walk@[k] < n,
            offs@.len() == walk@.len(),
            forall|k: int|
                0 <= k < walk@.len() ==> #[trigger] offs@[k] == t.name_off_in(t.names_table(), walk@[k]),
            forall|x: usize|
                x < n ==> (#[trigger] nodes@[x as int])@ == (if walk@.take(k as int).contains(x) {
                    FileModel { name_off: t.name_off_in(t.names_table(), x), ..t.entries[x as int] }
                } else {
                    t.entries[x as int]
                }),
        decreases walk@.len() - k,
    {
        let e = walk[k];
        let ghost before = nodes@;
        nodes[e].name_off = offs[k];
        proof {
            assert forall|x: usize| x < n implies (#[trigger] nodes@[x as int])@ == (if walk@.take(
                k as int + 1,
            ).contains(x) {
                FileModel { name_off: t.name_off_in(t.names_table(), x), ..t.entries[x as int] }
            } else {
                t.entries[x as int]
            }) by {
                if x == e {
                    assert(walk@.take(k as int + 1)[k as int] == e);
                } else {
                    assert(nodes@[x as int] == before[x as int]);
                    if walk@.take(k as int).contains(x) {
                        let q = walk@.take(k as int).index_of(x);
                        assert(walk@.take(k as int + 1)[q] == x);
                    } else if walk@.take(k as int + 1).contains(x) {
                        let q = walk@.take(k as int + 1).index_of(x);
                        assert(walk@.take(k as int)[q] == x);
                    }
                }
            }
        }
        k += 1;
    }
    proof {
        assert(walk@.take(walk@.len() as int) =~= walk@);
        assert forall|x: int| 0 <= x < n implies file_models(nodes@)[x] == t.named().entries[x] by {
            assert(nodes@[(x as usize) as int]@ == file_models(nodes@)[x]);
        }
        assert(file_models(nodes@) =~= t.named().entries);
    }
}

/// Whether the text is not empty and holds no zero byte.
pub fn is_clean(name: &str) -> (ok: bool)
    ensures
        ok == clean_text(name@),
{
    let bytes = name.as_bytes();
    if bytes.len() == 0 {
        return false;
    }
    let mut i: usize = 0;
    while i < bytes.len()
        invariant
            i <= bytes.len(),
            bytes@ == vstd::utf8::encode_utf8(name@),
            forall|j: int| 0 <= j < i ==> bytes@[j] != 0,
        decreases bytes.len() - i,
    {
        if bytes[i] == 0 {
            return false;
        }
        i += 1;
    }
    true
}

/// Whether every name that is written can be found again in the string
/// table: that of the root and those of the entries of the walk.
pub(crate) fn sound_names(folders: &Vec<Directory>, nodes: &Vec<File>, walk: &Vec<usize>, Ghost(t): Ghost<Tree>) -> (ok:
    bool)
    requires
        t.dirs == dir_models(folders@),
        t.entries == file_models(nodes@),
        walk@ == t.walk(),
        forall|k: int| 0 <= k < walk@.len() ==> #[trigger] walk@[k] < nodes@.len(),
    ensures
        ok == t.names_sound(),
{
    if folders.len() > 0 {
        assert(folders@[0]@ == t.dirs[0]);
        if !is_clean(folders[0].name.as_str()) {
            return false;
        }
    }
    let mut k: usize = 0;
    while k < walk.len()
        invariant
            k <= walk@.len(),
            t.entries == file_models(nodes@),
            walk@ == t.walk(),
            forall|k: int| 0 <= k < walk@.len() ==> #[trigger] walk@[k] < nodes@.len(),
            forall|j: int| 0 <= j < k ==> clean_text(t.entries[#[trigger] walk@[j] as int].name),
        decreases walk@.len() - k,
    {
        let c = walk[k];
        assert(nodes@[c as int]@ == t.entries[c as int]);
        if !is_clean(nodes[c].name.as_str()) {
            return false;
        }
        k += 1;
    }
    true
}

/// Gives every directory the name offset of the link that leads to it, and
/// the root the offset of its own name.
pub(crate) fn name_dirs(
    folders: &mut Vec<Directory>,
    nodes: &Vec<File>,
    walk: &Vec<usize>,
    offs: &Vec<u32>,
    Ghost(t): Ghost<Tree>,
)
    requires
        t.dirs == dir_models(old(folders)@),
        t.entries == file_models(nodes@),
        t.linked(),
        walk@ == t.walk(),
        forall|k: int| 0 <= k < walk@.len() ==> #[trigger] walk@[k] < nodes@.len(),
        offs@.len() == walk@.len(),
        forall|k: int|
            0 <= k < walk@.len() ==> #[trigger] offs@[k] == t.name_off_in(t.names_table(), walk@[k]),
    ensures
        dir_models(final(folders)@) == t.named().dirs,
{
    let n = folders.len();
    let ghost table = t.names_table();
    if n > 0 {
        proof {
            reveal_strlit(".");
            reveal_strlit("..");
            assert("."@ =~= dot_text());
            assert(".."@ =~= dotdot_text());
        }
        let off: u32 = if str_eq(folders[0].name.as_str(), ".") {
            0
        } else if str_eq(folders[0].name.as_str(), "..") {
            2
        } else {
            5
        };
        folders[0].node.name_off = off;
    }
    let mut k: usize = 0;
    proof {
        assert forall|f: usize| f < n implies (#[trigger] folders@[f as int])@ == (DirModel {
            node: NodeModel { name_off: t.dir_name_off(table, walk@, f, 0), ..t.dirs[f as int].node },
            ..t.dirs[f as int]
        }) by {}
    }
    while k < walk.len()
        invariant
            k <= walk@.len(),
            n == folders@.len(),
            n == t.dirs.len(),
            t.entries == file_models(nodes@),
            t.linked(),
            table == t.names_table(),
            walk@ == t.walk(),
            forall|k: int| 0 <= k < walk@.len() ==> #[trigger] walk@[k] < nodes@.len(),
            offs@.len() == walk@.len(),
            forall|k: int| 0 <= k < walk@.len() ==> #[trigger] offs@[k] == t.name_off_in(table, walk@[k]),
            forall|f: usize|
                f < n ==> (#[trigger] folders@[f as int])@ == (DirModel {
                    node: NodeModel {
                        name_off: t.dir_name_off(table, walk@, f, k as int),
                        ..t.dirs[f as int].node
                    },
                    ..t.dirs[f as int]
                }),
        decreases walk@.len() - k,
    {
        let c = walk[k];
        let file = &nodes[c];
        assert(file@ == t.entries[c as int]);
        let ghost before = folders@;
        if file.is_dir() && !file.is_shortcut() {
            match file.folder {
                Some(f) => {
                    assert(f < n);
                    folders[f].node.name_off = offs[k];
                },
                None => {},
            }
        }
        proof {
            assert forall|f: usize| f < n implies (#[trigger] folders@[f as int])@ == (DirModel {
                node: NodeModel {
                    name_off: t.dir_name_off(table, walk@, f, k as int + 1),
                    ..t.dirs[f as int].node
                },
                ..t.dirs[f as int]
            }) by {
                if t.is_sub_link(c) && t.entries[c as int].folder == Some(f) {
                } else {
                    assert(folders@[f as int] == before[f as int]);
                }
            }
        }
        k += 1;
    }
    proof {
        assert forall|x: int| 0 <= x < n implies dir_models(folders@)[x] == t.named().dirs[x] by {
            assert(folders@[(x as usize) as int]@ == dir_models(folders@)[x]);
        }
        assert(dir_models(folders@) =~= t.named().dirs);
    }
}

} // verus!
