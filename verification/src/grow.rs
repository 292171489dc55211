//! How an archive grows: a root, then directories and files beneath
//! directories that are there. What grows so is a strict tree.

use vstd::prelude::*;
use crate::archive::{after_import, FoundModel, import_too_large};
use crate::names::lemma_dot_bytes;
use crate::nodes::directory::new_dir;
use crate::nodes::file::{FileAttr, is_dot_name, new_file};
use crate::roundtrip::{clean_text, links_to};
use crate::settle::kind_ok;
use crate::header::DataHeader;
use crate::tree::{
    dot_text, dotdot_text, lemma_attach_linked, lemma_with_data_linked, lemma_with_folder_linked,
    lemma_with_root_linked, Tree,
};

verus! {

/// The attributes of a directory entry mark a directory and no file.
pub proof fn lemma_folder_attr()
    ensures
        FileAttr(FileAttr::FOLDER).spec_contains(FileAttr::FOLDER),
        !FileAttr(FileAttr::FOLDER).spec_contains(FileAttr::FILE),
{
    assert(0x02u8 & 0x02u8 == 0x02u8) by (bit_vector);
    assert(0x02u8 & 0x01u8 != 0x01u8) by (bit_vector);
}

/// What an archive with a new directory holds: the entries that were
/// there and behind them the link, `.` and `..`; the directories that
/// were there, of which the parent has the link as a new last child; and
/// behind them the new directory with its two shortcuts.
pub proof fn lemma_with_folder_parts(t: Tree, name: Seq<char>, p: usize)
    requires
        p < t.dirs.len() <= usize::MAX,
        t.entries.len() + 3 <= usize::MAX,
    ensures
        ({
            let u = t.with_folder(name, Some(p));
            let n = t.dirs.len() as int;
            let m = t.entries.len() as int;
            let folder = FileAttr(FileAttr::FOLDER);
            &&& u.table == t.table
            &&& u.data_header == t.data_header
            &&& u.dirs.len() == n + 1
            &&& u.entries.len() == m + 3
            &&& forall|e: int| 0 <= e < m ==> #[trigger] u.entries[e] == t.entries[e]
            &&& u.entries[m] == new_file(name, folder, Some(n as usize), Some(p))
            &&& u.entries[m + 1] == new_file(dot_text(), folder, Some(n as usize), Some(n as usize))
            &&& u.entries[m + 2] == new_file(dotdot_text(), folder, Some(p), Some(n as usize))
            &&& forall|d: int| 0 <= d < n && d != p ==> #[trigger] u.dirs[d] == t.dirs[d]
            &&& u.dirs[p as int].children == t.dirs[p as int].children.push(m as usize)
            &&& u.dirs[p as int].name == t.dirs[p as int].name
            &&& u.dirs[n].children == seq![(m + 1) as usize, (m + 2) as usize]
            &&& u.dirs[n].name == name
        }),
{
    let n = t.dirs.len() as usize;
    let m = t.entries.len() as int;
    let folder = FileAttr(FileAttr::FOLDER);
    let t1 = t.with_dir(new_dir(name, false));
    let t2 = t1.attach(new_file(name, folder, Some(n), Some(p)));
    let t3 = t2.attach(new_file(dot_text(), folder, Some(n), Some(n)));
    let t4 = t3.attach(new_file(dotdot_text(), folder, Some(p), Some(n)));
    let u = t4.with_self_file(n as int, m as usize);
    assert(u == t.with_folder(name, Some(p)));
    assert(t2.dirs[p as int].children == t.dirs[p as int].children.push(m as usize));
    assert(t3.dirs[n as int].children =~= seq![(m + 1) as usize]);
    assert(t4.dirs[n as int].children =~= seq![(m + 1) as usize, (m + 2) as usize]);
    assert(t4.dirs[p as int].children == t.dirs[p as int].children.push(m as usize));
}

/// What an archive with a new file holds: the entries that were there and
/// behind them the file; and the directories that were there, of which the
/// parent has the file as a new last child.
pub proof fn lemma_with_file_parts(t: Tree, name: Seq<char>, attr: FileAttr, p: usize)
    requires
        p < t.dirs.len() <= usize::MAX,
        t.entries.len() < usize::MAX,
    ensures
        ({
            let u = t.with_file(name, attr, Some(p));
            let m = t.entries.len() as int;
            &&& u.table == t.table
            &&& u.dirs.len() == t.dirs.len()
            &&& u.entries.len() == m + 1
            &&& forall|e: int| 0 <= e < m ==> #[trigger] u.entries[e] == t.entries[e]
            &&& u.entries[m].name == name
            &&& u.entries[m].attr == attr
            &&& u.entries[m].folder is None
            &&& u.entries[m].data.len() == 0
            &&& u.entries[m].node.data_size == 0
            &&& forall|d: int| 0 <= d < t.dirs.len() && d != p ==> #[trigger] u.dirs[d] == t.dirs[d]
            &&& u.dirs[p as int].children == t.dirs[p as int].children.push(m as usize)
            &&& u.dirs[p as int].name == t.dirs[p as int].name
        }),
{
}

impl Tree {
    /// The archive grew from a root, every child of a directory is a
    /// directory entry without payload, a file whose size is that of its
    /// payload or an entry that is neither and has no payload, every link
    /// bears the name of its directory, and every child of a directory has
    /// that directory as its parent.
    pub open spec fn regular(self) -> bool {
        &&& self.grown()
        &&& self.entries.len() <= usize::MAX
        &&& self.kinds_ok()
        &&& self.links_named()
        &&& self.parents_right()
    }
}

/// The names `.` and `..` are clean, and they are the names of shortcuts.
pub proof fn lemma_dot_clean()
    ensures
        clean_text(dot_text()),
        clean_text(dotdot_text()),
        is_dot_name(vstd::utf8::encode_utf8(dot_text())),
        is_dot_name(vstd::utf8::encode_utf8(dotdot_text())),
{
    lemma_dot_bytes();
}

/// A child of a directory of an archive with a new directory is a child
/// that was there, at its place, or one of the three new entries: the link
/// as the last child of the parent, `.` and `..` as the children of the new
/// directory.
pub proof fn lemma_folder_child(t: Tree, name: Seq<char>, p: usize, d: int, k: int)
    requires
        t.linked(),
        p < t.dirs.len() <= usize::MAX,
        t.entries.len() + 3 <= usize::MAX,
        0 <= d < t.with_folder(name, Some(p)).dirs.len(),
        0 <= k < t.with_folder(name, Some(p)).dirs[d].children.len(),
    ensures
        ({
            let u = t.with_folder(name, Some(p));
            let n = t.dirs.len() as int;
            let m = t.entries.len() as int;
            let c = u.dirs[d].children[k];
            ||| d < n && k < t.dirs[d].children.len() && c == t.dirs[d].children[k] && c < m
                && u.entries[c as int] == t.entries[c as int]
            ||| d == p && k == t.dirs[d].children.len() && c == m
            ||| d == n && k == 0 && c == m + 1
            ||| d == n && k == 1 && c == m + 2
        }),
{
    lemma_with_folder_parts(t, name, p);
    let u = t.with_folder(name, Some(p));
    let n = t.dirs.len() as int;
    if d < n {
        if d != p {
            assert(u.dirs[d] == t.dirs[d]);
        }
        if k < t.dirs[d].children.len() {
            assert(t.dirs[d].children[k] < t.entries.len());
        }
    }
}

/// A link of an archive with a new directory is a link that was there, or
/// the link to the new directory.
pub proof fn lemma_folder_link(t: Tree, name: Seq<char>, p: usize, d: int, k: int, f: usize)
    requires
        t.linked(),
        p < t.dirs.len() <= usize::MAX,
        t.entries.len() + 3 <= usize::MAX,
        t.with_folder(name, Some(p)).is_link(d, k, f),
    ensures
        (f < t.dirs.len() && t.is_link(d, k, f)) || (f == t.dirs.len() && d == p && k
            == t.dirs[d].children.len()),
{
    lemma_with_folder_parts(t, name, p);
    lemma_folder_child(t, name, p, d, k);
    lemma_folder_attr();
    lemma_dot_clean();
    let u = t.with_folder(name, Some(p));
    let c = u.dirs[d].children[k];
    if c < t.entries.len() {
        assert(t.entries[c as int].folder is Some);
    }
}

/// A link that was there is a link of the archive with a new directory.
pub proof fn lemma_folder_link_kept(t: Tree, name: Seq<char>, p: usize, d: int, k: int, f: usize)
    requires
        t.linked(),
        p < t.dirs.len() <= usize::MAX,
        t.entries.len() + 3 <= usize::MAX,
        t.is_link(d, k, f),
    ensures
        t.with_folder(name, Some(p)).is_link(d, k, f),
{
    lemma_with_folder_parts(t, name, p);
    let u = t.with_folder(name, Some(p));
    if d != p {
        assert(u.dirs[d] == t.dirs[d]);
    }
    let c = t.dirs[d].children[k];
    assert(c < t.entries.len());
    assert(u.entries[c as int] == t.entries[c as int]);
}

/// An archive that grew from a root still did when a directory with a
/// name of its own is added beneath one of its directories.
pub proof fn lemma_folder_grown(t: Tree, name: Seq<char>, p: usize)
    requires
        t.grown(),
        p < t.dirs.len(),
        t.dirs.len() < usize::MAX,
        t.entries.len() + 3 <= usize::MAX,
        !is_dot_name(vstd::utf8::encode_utf8(name)),
    ensures
        t.with_folder(name, Some(p)).grown(),
{
    let u = t.with_folder(name, Some(p));
    let n = t.dirs.len() as int;
    let m = t.entries.len() as int;
    lemma_with_folder_parts(t, name, p);
    lemma_with_folder_linked(t, name, Some(p));
    lemma_folder_attr();
    lemma_dot_clean();
    assert forall|d: int, k: int|
        0 <= d < u.dirs.len() && 0 <= k < u.dirs[d].children.len() && u.is_sub_link(
            #[trigger] u.dirs[d].children[k],
        ) implies u.entries[u.dirs[d].children[k] as int].folder is Some && d
        < u.entries[u.dirs[d].children[k] as int].folder.unwrap() < u.dirs.len() by {
        lemma_folder_child(t, name, p, d, k);
        let c = u.dirs[d].children[k];
        if c < m {
            assert(t.is_sub_link(t.dirs[d].children[k]));
        }
    }
    assert forall|f: usize| 1 <= f < u.dirs.len() implies #[trigger] u.has_parent(f) by {
        if f < n {
            assert(t.has_parent(f));
            let (d, k) = choose|d: int, k: int| #[trigger] t.is_link(d, k, f);
            lemma_folder_link_kept(t, name, p, d, k, f);
        } else {
            assert(u.is_link(p as int, t.dirs[p as int].children.len() as int, f));
        }
    }
    assert forall|d: int, k: int, e: int, j: int, f: usize| #[trigger]
        u.is_link(d, k, f) && #[trigger] u.is_link(e, j, f) implies d == e && k == j by {
        lemma_folder_link(t, name, p, d, k, f);
        lemma_folder_link(t, name, p, e, j, f);
    }
    assert forall|d: int, k: int, e: int, j: int|
        0 <= d < u.dirs.len() && 0 <= k < u.dirs[d].children.len() && 0 <= e < u.dirs.len() && 0 <= j
            < u.dirs[e].children.len() && #[trigger] u.dirs[d].children[k]
            == #[trigger] u.dirs[e].children[j] implies d == e && k == j by {
        lemma_folder_child(t, name, p, d, k);
        lemma_folder_child(t, name, p, e, j);
        if u.dirs[d].children[k] < m {
            assert(t.dirs[d].children[k] == t.dirs[e].children[j]);
        }
    }
}

/// A regular archive is still regular when a directory with a name that
/// is neither `.` nor `..` is added beneath one of its directories.
pub proof fn lemma_folder_regular(t: Tree, name: Seq<char>, p: usize)
    requires
        t.regular(),
        p < t.dirs.len(),
        t.dirs.len() < usize::MAX,
        t.entries.len() + 3 <= usize::MAX,
        !is_dot_name(vstd::utf8::encode_utf8(name)),
    ensures
        t.with_folder(name, Some(p)).regular(),
{
    crate::kin::lemma_folder_parents(t, name, p);
    let u = t.with_folder(name, Some(p));
    let n = t.dirs.len() as int;
    let m = t.entries.len() as int;
    lemma_folder_grown(t, name, p);
    lemma_with_folder_parts(t, name, p);
    lemma_folder_attr();
    lemma_dot_clean();
    assert forall|d: int, k: int| 0 <= d < u.dirs.len() && 0 <= k < u.dirs[d].children.len() implies kind_ok(
        u.entries[#[trigger] u.dirs[d].children[k] as int],
    ) by {
        lemma_folder_child(t, name, p, d, k);
        if u.dirs[d].children[k] < m {
            assert(kind_ok(t.entries[t.dirs[d].children[k] as int]));
        }
    }
    assert(u.root_name() == t.root_name()) by {
        if p != 0 {
            assert(u.dirs[0] == t.dirs[0]);
        }
    }
    assert forall|d: int, k: int, f: usize|
        0 <= d < u.dirs.len() && 0 <= k < u.dirs[d].children.len() && #[trigger] links_to(
            u,
            u.dirs[d].children[k],
            f,
        ) && f < u.dirs.len() implies u.entries[u.dirs[d].children[k] as int].name == u.dirs[f as int].name by {
        assert(u.is_link(d, k, f));
        lemma_folder_link(t, name, p, d, k, f);
        lemma_folder_child(t, name, p, d, k);
        if f < n {
            assert(links_to(t, t.dirs[d].children[k], f));
            if f != p {
                assert(u.dirs[f as int] == t.dirs[f as int]);
            }
        }
    }
}

/// A child of a directory of an archive with a new file is a child that
/// was there, at its place, or the file as the last child of its parent.
pub proof fn lemma_file_child(t: Tree, name: Seq<char>, attr: FileAttr, p: usize, d: int, k: int)
    requires
        t.linked(),
        p < t.dirs.len() <= usize::MAX,
        t.entries.len() < usize::MAX,
        0 <= d < t.dirs.len(),
        0 <= k < t.with_file(name, attr, Some(p)).dirs[d].children.len(),
    ensures
        ({
            let u = t.with_file(name, attr, Some(p));
            let m = t.entries.len() as int;
            let c = u.dirs[d].children[k];
            ||| k < t.dirs[d].children.len() && c == t.dirs[d].children[k] && c < m && u.entries[c as int]
                == t.entries[c as int]
            ||| d == p && k == t.dirs[d].children.len() && c == m
        }),
{
    lemma_with_file_parts(t, name, attr, p);
    let u = t.with_file(name, attr, Some(p));
    if d != p {
        assert(u.dirs[d] == t.dirs[d]);
    }
    if k < t.dirs[d].children.len() {
        assert(t.dirs[d].children[k] < t.entries.len());
    }
}

/// A regular archive is still regular when an entry with any name and
/// with any attributes that do not mark a directory is added beneath one of
/// its directories.
pub proof fn lemma_file_regular(t: Tree, name: Seq<char>, attr: FileAttr, p: usize)
    requires
        t.regular(),
        p < t.dirs.len(),
        t.entries.len() < usize::MAX,
        !attr.spec_contains(FileAttr::FOLDER),
    ensures
        t.with_file(name, attr, Some(p)).regular(),
{
    crate::kin::lemma_file_parents(t, name, attr, p);
    let u = t.with_file(name, attr, Some(p));
    let m = t.entries.len() as int;
    lemma_with_file_parts(t, name, attr, p);
    assert(u.linked()) by {
        let file = new_file(name, attr, None, Some(p));
        if t.sync() {
            lemma_attach_linked(t, file);
        } else {
            let numbered = crate::nodes::file::FileModel {
                node: crate::nodes::file::Node { id: t.next_id(), ..file.node },
                ..file
            };
            lemma_attach_linked(t, numbered);
            let grown = t.attach(numbered);
            assert(u.dirs == grown.dirs && u.entries == grown.entries && u.table == grown.table);
        }
    }
    assert forall|d: int, k: int|
        0 <= d < u.dirs.len() && 0 <= k < u.dirs[d].children.len() && u.is_sub_link(
            #[trigger] u.dirs[d].children[k],
        ) implies u.entries[u.dirs[d].children[k] as int].folder is Some && d
        < u.entries[u.dirs[d].children[k] as int].folder.unwrap() < u.dirs.len() by {
        lemma_file_child(t, name, attr, p, d, k);
        if u.dirs[d].children[k] < m {
            assert(t.is_sub_link(t.dirs[d].children[k]));
        }
    }
    assert forall|d: int, k: int, f: usize| #[trigger] u.is_link(d, k, f) implies t.is_link(d, k, f) by {
        lemma_file_child(t, name, attr, p, d, k);
    }
    assert forall|f: usize| 1 <= f < u.dirs.len() implies #[trigger] u.has_parent(f) by {
        assert(t.has_parent(f));
        let (d, k) = choose|d: int, k: int| #[trigger] t.is_link(d, k, f);
        if d != p {
            assert(u.dirs[d] == t.dirs[d]);
        }
        assert(t.dirs[d].children[k] < t.entries.len());
        assert(u.is_link(d, k, f));
    }
    assert forall|d: int, k: int, e: int, j: int, f: usize| #[trigger]
        u.is_link(d, k, f) && #[trigger] u.is_link(e, j, f) implies d == e && k == j by {
        assert(t.is_link(d, k, f) && t.is_link(e, j, f));
    }
    assert forall|d: int, k: int, e: int, j: int|
        0 <= d < u.dirs.len() && 0 <= k < u.dirs[d].children.len() && 0 <= e < u.dirs.len() && 0 <= j
            < u.dirs[e].children.len() && #[trigger] u.dirs[d].children[k]
            == #[trigger] u.dirs[e].children[j] implies d == e && k == j by {
        lemma_file_child(t, name, attr, p, d, k);
        lemma_file_child(t, name, attr, p, e, j);
        if u.dirs[d].children[k] < m {
            assert(t.dirs[d].children[k] == t.dirs[e].children[j]);
        }
    }
    assert forall|d: int, k: int| 0 <= d < u.dirs.len() && 0 <= k < u.dirs[d].children.len() implies kind_ok(
        u.entries[#[trigger] u.dirs[d].children[k] as int],
    ) by {
        lemma_file_child(t, name, attr, p, d, k);
        if u.dirs[d].children[k] < m {
            assert(kind_ok(t.entries[t.dirs[d].children[k] as int]));
        }
    }
    assert(u.root_name() == t.root_name()) by {
        if p != 0 {
            assert(u.dirs[0] == t.dirs[0]);
        }
    }
    assert forall|d: int, k: int, f: usize|
        0 <= d < u.dirs.len() && 0 <= k < u.dirs[d].children.len() && #[trigger] links_to(
            u,
            u.dirs[d].children[k],
            f,
        ) && f < u.dirs.len() implies u.entries[u.dirs[d].children[k] as int].name == u.dirs[f as int].name by {
        assert(u.is_link(d, k, f));
        lemma_file_child(t, name, attr, p, d, k);
        assert(links_to(t, t.dirs[d].children[k], f));
        if f != p {
            assert(u.dirs[f as int] == t.dirs[f as int]);
        }
    }
}

/// A regular archive is still regular when a file of it is given a
/// payload that is no longer than 32 bits count.
pub proof fn lemma_data_regular(t: Tree, handle: int, data: Seq<u8>)
    requires
        t.regular(),
        0 <= handle < t.entries.len(),
        !t.entries[handle].is_dir(),
        t.entries[handle].is_file(),
        data.len() <= u32::MAX,
    ensures
        t.with_data(handle, data).regular(),
{
    crate::kin::lemma_data_parents(t, handle, data);
    let u = t.with_data(handle, data);
    lemma_with_data_linked(t, handle, data);
    assert forall|c: usize| u.is_sub_link(c) == t.is_sub_link(c) && (c < t.entries.len()
        ==> u.entries[c as int].folder == t.entries[c as int].folder && u.entries[c as int].name
        == t.entries[c as int].name) by {}
    assert forall|d: int, k: int, f: usize| #[trigger] u.is_link(d, k, f) == t.is_link(d, k, f) by {}
    assert forall|d: int, k: int|
        0 <= d < u.dirs.len() && 0 <= k < u.dirs[d].children.len() && u.is_sub_link(
            #[trigger] u.dirs[d].children[k],
        ) implies u.entries[u.dirs[d].children[k] as int].folder is Some && d
        < u.entries[u.dirs[d].children[k] as int].folder.unwrap() < u.dirs.len() by {
        assert(t.is_sub_link(t.dirs[d].children[k]));
    }
    assert forall|f: usize| 1 <= f < u.dirs.len() implies #[trigger] u.has_parent(f) by {
        assert(t.has_parent(f));
        let (d, k) = choose|d: int, k: int| #[trigger] t.is_link(d, k, f);
        assert(u.is_link(d, k, f));
    }
    assert forall|d: int, k: int, e: int, j: int, f: usize| #[trigger]
        u.is_link(d, k, f) && #[trigger] u.is_link(e, j, f) implies d == e && k == j by {
        assert(t.is_link(d, k, f) && t.is_link(e, j, f));
    }
    assert forall|d: int, k: int| 0 <= d < u.dirs.len() && 0 <= k < u.dirs[d].children.len() implies kind_ok(
        u.entries[#[trigger] u.dirs[d].children[k] as int],
    ) by {
        assert(kind_ok(t.entries[t.dirs[d].children[k] as int]));
        assert(t.dirs[d].children[k] < t.entries.len());
    }
    assert forall|d: int, k: int, f: usize|
        0 <= d < u.dirs.len() && 0 <= k < u.dirs[d].children.len() && #[trigger] links_to(
            u,
            u.dirs[d].children[k],
            f,
        ) && f < u.dirs.len() implies u.entries[u.dirs[d].children[k] as int].name == u.dirs[f as int].name by {
        assert(links_to(t, t.dirs[d].children[k], f));
    }
}

/// A regular archive is still regular after an import beneath one of its
/// directories: of a directory, or of a file with attributes that mark a
/// file and no directory.
pub proof fn lemma_import_regular(t: Tree, name: Seq<char>, found: FoundModel, attr: FileAttr, p: usize)
    requires
        t.regular(),
        p < t.dirs.len(),
        t.dirs.len() < usize::MAX,
        t.entries.len() + 3 <= usize::MAX,
        attr.spec_contains(FileAttr::FILE),
        !attr.spec_contains(FileAttr::FOLDER),
    ensures
        after_import(t, name, found, attr, Some(p)).regular(),
{
    if !is_dot_name(vstd::utf8::encode_utf8(name)) {
        match found {
            FoundModel::Folder => {
                lemma_folder_regular(t, name, p);
            },
            FoundModel::File(data) => {
                if !import_too_large(t, data) {
                    lemma_file_regular(t, name, attr, p);
                    lemma_with_file_parts(t, name, attr, p);
                    lemma_data_regular(t.with_file(name, attr, Some(p)), t.entries.len() as int, data);
                }
            },
            FoundModel::Other => {},
        }
    }
}

/// A new archive with a root is regular.
pub proof fn lemma_created_regular(name: Seq<char>, sync: bool)
    ensures
        (Tree { data_header: DataHeader { sync, ..Tree::empty().data_header }, ..Tree::empty() }).with_root(
            name,
        ).regular(),
{
    let t = Tree { data_header: DataHeader { sync, ..Tree::empty().data_header }, ..Tree::empty() };
    let u = t.with_root(name);
    let folder = FileAttr(FileAttr::FOLDER);
    crate::kin::lemma_created_parents(name, sync);
    lemma_with_root_linked(t, name);
    lemma_folder_attr();
    lemma_dot_clean();
    let t1 = t.with_dir(new_dir(name, true));
    let t2 = t1.attach(new_file(dot_text(), folder, Some(0), Some(0)));
    assert(t2.dirs[0].children =~= seq![0usize]);
    assert(u.dirs[0].children =~= seq![0usize, 1usize]);
    assert(u.entries =~= seq![
        new_file(dot_text(), folder, Some(0), Some(0)),
        new_file(dotdot_text(), folder, None, Some(0)),
    ]);
    assert(u.dirs.len() == 1);
    assert(u.dirs[0].name == name);
    assert(!u.is_sub_link(0));
    assert(!u.is_sub_link(1));
    assert forall|d: int, k: int, f: usize| !#[trigger] u.is_link(d, k, f) by {
        if u.is_link(d, k, f) {
            assert(k == 0 || k == 1);
        }
    }
}

} // verus!
