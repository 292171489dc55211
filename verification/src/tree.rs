//! The archive as plain values: its directories, its entries, and the file
//! table, with what the operations of the library make of them.

use vstd::prelude::*;
use crate::header::{DataHeader, Header};
use crate::nodes::directory::{DirModel, new_dir};
use crate::nodes::file::{dot, dotdot, FileAttr, FileModel, new_file};
use crate::table::{after_add, find, has_room};

verus! {

/// What an archive holds. A directory is named by its position in `dirs`,
/// an entry by its position in `entries`; `table` lists the entries in the
/// order of the file table. The root is the first directory.
pub struct Tree {
    pub header: Header,
    pub data_header: DataHeader,
    pub dirs: Seq<DirModel>,
    pub entries: Seq<FileModel>,
    pub table: Seq<usize>,
}

/// The name `.`.
pub open spec fn dot_text() -> Seq<char> {
    seq!['.']
}

/// The name `..`.
pub open spec fn dotdot_text() -> Seq<char> {
    seq!['.', '.']
}

impl Tree {
    /// Every link leads to a directory or an entry that exists.
    pub open spec fn linked(self) -> bool {
        &&& forall|d: int, j: int|
            0 <= d < self.dirs.len() && 0 <= j < self.dirs[d].children.len()
                ==> #[trigger] self.dirs[d].children[j] < self.entries.len()
        &&& forall|d: int|
            0 <= d < self.dirs.len() && (#[trigger] self.dirs[d]).file is Some
                ==> self.dirs[d].file.unwrap() < self.entries.len()
        &&& forall|i: int|
            0 <= i < self.entries.len() && (#[trigger] self.entries[i]).folder is Some
                ==> self.entries[i].folder.unwrap() < self.dirs.len()
        &&& forall|i: int|
            0 <= i < self.entries.len() && (#[trigger] self.entries[i]).parent is Some
                ==> self.entries[i].parent.unwrap() < self.dirs.len()
        &&& forall|k: int| 0 <= k < self.table.len() ==> #[trigger] self.table[k] < self.entries.len()
    }

    /// Whether the id of a file is its position in the file table.
    pub open spec fn sync(self) -> bool {
        self.data_header.sync
    }

    /// The next free id.
    pub open spec fn next_id(self) -> u16 {
        self.data_header.next_idx
    }

    /// An archive without directories and entries.
    pub open spec fn empty() -> Tree {
        Tree {
            header: Header::zero(),
            data_header: DataHeader::zero(),
            dirs: Seq::empty(),
            entries: Seq::empty(),
            table: Seq::empty(),
        }
    }

    /// Whether the entry `c` is the link from a directory to a sub-directory.
    pub open spec fn is_sub_link(self, c: usize) -> bool {
        c < self.entries.len() && self.entries[c as int].is_sub_link()
    }

    /// Whether the entry `c` is a shortcut.
    pub open spec fn is_shortcut(self, c: usize) -> bool {
        c < self.entries.len() && self.entries[c as int].is_shortcut()
    }

    /// Whether the directory `d` holds a link to a sub-directory that names
    /// no directory.
    pub open spec fn has_dangling(self, d: usize) -> bool {
        exists|j: int|
            0 <= j < self.dirs[d as int].children.len() && self.is_sub_link(
                #[trigger] self.dirs[d as int].children[j],
            ) && self.entries[self.dirs[d as int].children[j] as int].folder is None
    }

    /// The directories beneath `d` in the order in which a depth-first walk
    /// meets them, from the child at position `j` on. The walk follows each
    /// link to a sub-directory as it comes to it, and goes down at most
    /// `depth` levels.
    pub open spec fn dirs_from(self, d: usize, j: int, depth: nat) -> Seq<usize>
        decreases depth, self.dirs[d as int].children.len() - j,
    {
        if d >= self.dirs.len() || j < 0 || j >= self.dirs[d as int].children.len() {
            Seq::empty()
        } else {
            let c = self.dirs[d as int].children[j];
            if self.is_sub_link(c) && self.entries[c as int].folder is Some {
                let f = self.entries[c as int].folder.unwrap();
                let below = if depth > 0 {
                    self.dirs_from(f, 0, (depth - 1) as nat)
                } else {
                    Seq::empty()
                };
                seq![f] + below + self.dirs_from(d, j + 1, depth)
            } else {
                self.dirs_from(d, j + 1, depth)
            }
        }
    }

    /// The directories in the order in which the file table lists their
    /// children: the root, then what a depth-first walk from it meets.
    pub open spec fn dir_order(self) -> Seq<usize> {
        if self.dirs.len() == 0 {
            Seq::empty()
        } else {
            seq![0usize] + self.dirs_from(0, 0, self.dirs.len())
        }
    }

    /// The children of `d` as the file table lists them: those that are no
    /// shortcuts in their order, then the shortcuts in theirs.
    pub open spec fn sorted_children(self, d: usize) -> Seq<usize> {
        self.dirs[d as int].children.filter(self.no_shortcut()) + self.dirs[d as int].children.filter(
            self.shortcut(),
        )
    }

    /// The test for an entry that is a shortcut.
    pub open spec fn shortcut(self) -> spec_fn(usize) -> bool {
        |c: usize| self.is_shortcut(c)
    }

    /// The test for an entry that is no shortcut.
    pub open spec fn no_shortcut(self) -> spec_fn(usize) -> bool {
        |c: usize| !self.is_shortcut(c)
    }

    /// The children of the directories of `order`, one directory after the
    /// other.
    pub open spec fn table_of(self, order: Seq<usize>) -> Seq<usize>
        decreases order.len(),
    {
        if order.len() == 0 {
            Seq::empty()
        } else {
            self.table_of(order.drop_last()) + self.sorted_children(order.last())
        }
    }

    /// The file table after sorting.
    pub open spec fn sorted_table(self) -> Seq<usize> {
        self.table_of(self.dir_order())
    }

    /// The directories beneath the root form a strict tree: the walk from
    /// the root meets no directory twice, every link to a sub-directory
    /// names one, and no entry is the child of two directories or twice the
    /// child of one.
    pub open spec fn tree_shaped(self) -> bool {
        &&& self.dir_order().no_duplicates()
        &&& forall|k: int| 0 <= k < self.dir_order().len() ==> !self.has_dangling(#[trigger] self.dir_order()[k])
        &&& self.sorted_table().no_duplicates()
    }

    /// How many of the first `p` entries of `table` are files.
    pub open spec fn files_before(self, table: Seq<usize>, p: int) -> nat
        decreases p,
    {
        if p <= 0 || p > table.len() {
            0
        } else {
            self.files_before(table, p - 1) + if self.entries[table[p - 1] as int].is_file() {
                1nat
            } else {
                0nat
            }
        }
    }

    /// The id that sorting gives to a file at position `p` of the file
    /// table: the position where ids are positions, else the number of files
    /// before it.
    pub open spec fn id_at(self, table: Seq<usize>, p: int) -> u16 {
        if self.sync() {
            p as u16
        } else {
            self.files_before(table, p) as u16
        }
    }

    /// The next free id after sorting: the length of the file table where
    /// ids are positions, else the number of files.
    pub open spec fn sorted_next_id(self) -> u16 {
        let table = self.sorted_table();
        if self.sync() {
            table.len() as u16
        } else {
            self.files_before(table, table.len() as int) as u16
        }
    }

    /// The directory `d` after sorting, where `d` stands at position `k` of
    /// the order: its children as the file table lists them, and where in
    /// the table they stand.
    pub open spec fn sorted_dir(self, d: usize, k: int) -> DirModel {
        let old = self.dirs[d as int];
        let children = self.sorted_children(d);
        DirModel {
            children,
            node: crate::nodes::directory::NodeModel {
                file_off: self.table_of(self.dir_order().take(k)).len() as u32,
                file_count: children.len() as u16,
                ..old.node
            },
            ..old
        }
    }

    /// The entry `e` after sorting, where `e` stands at position `p` of the
    /// file table: a directory entry names its directory by position, a
    /// file has its id.
    pub open spec fn sorted_entry(self, e: usize, p: int) -> FileModel {
        let old = self.entries[e as int];
        let data = if old.is_dir() {
            match old.folder {
                Some(f) => f as u32,
                None => crate::nodes::file::NO_FOLDER,
            }
        } else {
            old.node.data
        };
        let id = if old.is_file() {
            self.id_at(self.sorted_table(), p)
        } else {
            old.node.id
        };
        FileModel { node: crate::nodes::file::Node { id, data, ..old.node }, ..old }
    }

    /// The archive after sorting: the file table rebuilt from the tree, each
    /// directory with its range of it, and the ids given anew.
    pub open spec fn sorted(self) -> Tree {
        let order = self.dir_order();
        let table = self.sorted_table();
        Tree {
            dirs: Seq::new(
                self.dirs.len(),
                |d: int|
                    if order.contains(d as usize) {
                        self.sorted_dir(d as usize, order.index_of(d as usize))
                    } else {
                        self.dirs[d]
                    },
            ),
            entries: Seq::new(
                self.entries.len(),
                |e: int|
                    if table.contains(e as usize) {
                        self.sorted_entry(e as usize, table.index_of(e as usize))
                    } else {
                        self.entries[e]
                    },
            ),
            table,
            data_header: DataHeader { next_idx: self.sorted_next_id(), ..self.data_header },
            ..self
        }
    }

    /// Where the children of the directory at position `k` of the order
    /// start in the sorted file table.
    pub open spec fn range_start(self, k: int) -> nat {
        self.table_of(self.dir_order().take(k)).len()
    }

    /// How many children the directory at position `k` of the order has.
    pub open spec fn range_count(self, k: int) -> nat {
        self.sorted_children(self.dir_order()[k]).len()
    }

    /// Whether the entry `e` can name the directory that it stands for: the
    /// position of that directory lies below the mark for no directory.
    pub open spec fn link_fits(self, e: usize) -> bool {
        let entry = self.entries[e as int];
        entry.is_dir() && entry.folder is Some ==> entry.folder.unwrap() < crate::nodes::file::NO_FOLDER
    }

    /// Whether every number that sorting gives fits the field that holds
    /// it: the start of each directory's range 32 bits and the number of its
    /// children 16; the position of a directory that an entry of the table
    /// stands for lies below the mark for none; and the next free id fits 16
    /// bits, which is the length of the table where ids are positions, and
    /// else the number of files in the table.
    pub open spec fn sortable_size(self) -> bool {
        let order = self.dir_order();
        let table = self.sorted_table();
        &&& forall|k: int| 0 <= k < order.len() ==> #[trigger] self.range_start(k) <= 0xFFFF_FFFF
        &&& forall|k: int| 0 <= k < order.len() ==> #[trigger] self.range_count(k) <= 0xFFFF
        &&& forall|p: int| 0 <= p < table.len() ==> self.link_fits(#[trigger] table[p])
        &&& if self.sync() {
            table.len() <= 0xFFFF
        } else {
            self.files_before(table, table.len() as int) <= 0xFFFF
        }
    }

    /// The entries beneath `d` in the order in which a depth-first walk
    /// meets them, from the child at position `j` on. The walk follows each
    /// link to a sub-directory as it comes to it, and goes down at most
    /// `depth` levels.
    pub open spec fn walk_from(self, d: usize, j: int, depth: nat) -> Seq<usize>
        decreases depth, self.dirs[d as int].children.len() - j,
    {
        if d >= self.dirs.len() || j < 0 || j >= self.dirs[d as int].children.len() {
            Seq::empty()
        } else {
            let c = self.dirs[d as int].children[j];
            let below = if depth > 0 && self.is_sub_link(c) && self.entries[c as int].folder is Some {
                self.walk_from(self.entries[c as int].folder.unwrap(), 0, (depth - 1) as nat)
            } else {
                Seq::empty()
            };
            seq![c] + below + self.walk_from(d, j + 1, depth)
        }
    }

    /// The entries beneath the root in the order of a depth-first walk.
    pub open spec fn walk(self) -> Seq<usize> {
        self.walk_from(0, 0, self.dirs.len())
    }

    /// The name of the root, or the empty name where there is no root.
    pub open spec fn root_name(self) -> Seq<char> {
        if self.dirs.len() > 0 {
            self.dirs[0].name
        } else {
            Seq::empty()
        }
    }

    /// The string table with the names of the entries of `walk` added one
    /// after the other. The names `.` and `..` are not added.
    pub open spec fn add_names(self, es: Seq<(u32, Seq<char>)>, walk: Seq<usize>) -> Seq<
        (u32, Seq<char>),
    >
        decreases walk.len(),
    {
        if walk.len() == 0 {
            es
        } else {
            let before = self.add_names(es, walk.drop_last());
            let file = self.entries[walk.last() as int];
            if crate::nodes::file::is_dot_name(file.name_bytes()) {
                before
            } else {
                after_add(before, file.name)
            }
        }
    }

    /// Whether every name of the entries of `walk` has room in the table as
    /// it is added.
    pub open spec fn names_fit(self, es: Seq<(u32, Seq<char>)>, walk: Seq<usize>) -> bool
        decreases walk.len(),
    {
        if walk.len() == 0 {
            true
        } else {
            let before = self.add_names(es, walk.drop_last());
            let file = self.entries[walk.last() as int];
            self.names_fit(es, walk.drop_last()) && (crate::nodes::file::is_dot_name(
                file.name_bytes(),
            ) || has_room(before, file.name))
        }
    }

    /// The string table with `.`, `..` and the name of the root.
    pub open spec fn base_table(self) -> Seq<(u32, Seq<char>)> {
        after_add(
            after_add(after_add(Seq::empty(), dot_text()), dotdot_text()),
            self.root_name(),
        )
    }

    /// The string table of the archive: `.`, `..`, the name of the root,
    /// then the names of the entries in the order of the walk.
    pub open spec fn names_table(self) -> Seq<(u32, Seq<char>)> {
        self.add_names(self.base_table(), self.walk())
    }

    /// Whether the string table has room for the name of the root and of
    /// every entry.
    pub open spec fn names_have_room(self) -> bool {
        &&& has_room(after_add(after_add(Seq::empty(), dot_text()), dotdot_text()), self.root_name())
        &&& self.names_fit(self.base_table(), self.walk())
    }

    /// The offset of the name of the entry `e` in `table`: 0 for `.`, 2 for
    /// `..`, else where the table holds the name.
    pub open spec fn name_off_in(self, table: Seq<(u32, Seq<char>)>, e: usize) -> u32 {
        let file = self.entries[e as int];
        if file.name_bytes() == dot() {
            0
        } else if file.name_bytes() == dotdot() {
            2
        } else {
            match find(table, file.name) {
                Some(off) => off,
                None => 0,
            }
        }
    }

    /// Where the name of the root stands in the string table: at 0 or at 2
    /// where the root is named `.` or `..`, whose places are fixed, and else
    /// at 5, behind the two.
    pub open spec fn root_off(self) -> u32 {
        if self.root_name() == dot_text() {
            0
        } else if self.root_name() == dotdot_text() {
            2
        } else {
            5
        }
    }

    /// The name offset of the directory `f` once the first `upto` entries of
    /// `walk` are named: that of the last link among them that leads to `f`,
    /// else that of its own name for the root, and what it was for any
    /// other directory.
    pub open spec fn dir_name_off(
        self,
        table: Seq<(u32, Seq<char>)>,
        walk: Seq<usize>,
        f: usize,
        upto: int,
    ) -> u32
        decreases upto,
    {
        if upto <= 0 || upto > walk.len() {
            if f == 0 {
                self.root_off()
            } else {
                self.dirs[f as int].node.name_off
            }
        } else {
            let c = walk[upto - 1];
            if self.is_sub_link(c) && self.entries[c as int].folder == Some(f) {
                self.name_off_in(table, c)
            } else {
                self.dir_name_off(table, walk, f, upto - 1)
            }
        }
    }

    /// The archive after its string table was made: every entry of the walk
    /// knows where its name stands, and every directory has the offset of
    /// the link that leads to it.
    pub open spec fn named(self) -> Tree {
        let table = self.names_table();
        let walk = self.walk();
        Tree {
            dirs: Seq::new(
                self.dirs.len(),
                |f: int|
                    DirModel {
                        node: crate::nodes::directory::NodeModel {
                            name_off: self.dir_name_off(table, walk, f as usize, walk.len() as int),
                            ..self.dirs[f].node
                        },
                        ..self.dirs[f]
                    },
            ),
            entries: Seq::new(
                self.entries.len(),
                |e: int|
                    if walk.contains(e as usize) {
                        FileModel { name_off: self.name_off_in(table, e as usize), ..self.entries[e] }
                    } else {
                        self.entries[e]
                    },
            ),
            ..self
        }
    }

    /// The archive in which the entry `handle` has the payload `data`, and
    /// its size.
    pub open spec fn with_data(self, handle: int, data: Seq<u8>) -> Tree {
        Tree {
            entries: self.entries.update(
                handle,
                FileModel {
                    data,
                    node: crate::nodes::file::Node {
                        data_size: data.len() as u32,
                        ..self.entries[handle].node
                    },
                    ..self.entries[handle]
                },
            ),
            ..self
        }
    }

    /// The archive with one more directory.
    pub open spec fn with_dir(self, dir: DirModel) -> Tree {
        Tree { dirs: self.dirs.push(dir), ..self }
    }

    /// The archive with one more entry, which its parent, if it has one,
    /// lists as its last child.
    pub open spec fn attach(self, file: FileModel) -> Tree {
        let handle = self.entries.len() as usize;
        let dirs = match file.parent {
            Some(p) => if p < self.dirs.len() {
                self.dirs.update(
                    p as int,
                    DirModel { children: self.dirs[p as int].children.push(handle), ..self.dirs[p as int] },
                )
            } else {
                self.dirs
            },
            None => self.dirs,
        };
        Tree { dirs, entries: self.entries.push(file), ..self }
    }

    /// The archive in which the directory `d` knows `file` as the entry that
    /// stands for it.
    pub open spec fn with_self_file(self, d: int, file: usize) -> Tree {
        Tree { dirs: self.dirs.update(d, DirModel { file: Some(file), ..self.dirs[d] }), ..self }
    }

    /// The archive with a new directory named `name`: beneath `parent`, if
    /// one is given, through an entry of its own name, and with its two
    /// shortcuts, of which `..` leads to `parent`.
    pub open spec fn with_folder(self, name: Seq<char>, parent: Option<usize>) -> Tree {
        let d = self.dirs.len() as usize;
        let link = self.entries.len() as usize;
        self.with_dir(new_dir(name, false)).attach(
            new_file(name, FileAttr(FileAttr::FOLDER), Some(d), parent),
        ).attach(new_file(dot_text(), FileAttr(FileAttr::FOLDER), Some(d), Some(d))).attach(
            new_file(dotdot_text(), FileAttr(FileAttr::FOLDER), parent, Some(d)),
        ).with_self_file(d as int, link)
    }

    /// The archive with a new root directory named `name` and its two
    /// shortcuts, of which `..` leads nowhere.
    pub open spec fn with_root(self, name: Seq<char>) -> Tree {
        let d = self.dirs.len() as usize;
        self.with_dir(new_dir(name, true)).attach(
            new_file(dot_text(), FileAttr(FileAttr::FOLDER), Some(d), Some(d)),
        ).attach(new_file(dotdot_text(), FileAttr(FileAttr::FOLDER), None, Some(d)))
    }

    /// The archive with a new entry for a file beneath `parent`. Where ids
    /// are not positions, the entry takes the next free id.
    pub open spec fn with_file(self, name: Seq<char>, attr: FileAttr, parent: Option<usize>) -> Tree {
        let file = new_file(name, attr, None, parent);
        if self.sync() {
            self.attach(file)
        } else {
            let numbered = FileModel {
                node: crate::nodes::file::Node { id: self.next_id(), ..file.node },
                ..file
            };
            let grown = self.attach(numbered);
            Tree {
                data_header: DataHeader {
                    next_idx: (self.next_id() + 1) as u16,
                    ..self.data_header
                },
                ..grown
            }
        }
    }
}

/// A payload changes no link.
pub proof fn lemma_with_data_linked(t: Tree, handle: int, data: Seq<u8>)
    requires
        t.linked(),
        0 <= handle < t.entries.len(),
    ensures
        t.with_data(handle, data).linked(),
{
    let u = t.with_data(handle, data);
    assert forall|d: int, j: int|
        0 <= d < u.dirs.len() && 0 <= j < u.dirs[d].children.len() implies #[trigger] u.dirs[d].children[j]
        < u.entries.len() by {
        assert(t.dirs[d].children[j] < t.entries.len());
    }
    assert forall|i: int| 0 <= i < u.entries.len() && (#[trigger] u.entries[i]).folder is Some implies u.entries[i].folder.unwrap()
        < u.dirs.len() by {
        assert(t.entries[i].folder is Some);
    }
    assert forall|i: int| 0 <= i < u.entries.len() && (#[trigger] u.entries[i]).parent is Some implies u.entries[i].parent.unwrap()
        < u.dirs.len() by {
        assert(t.entries[i].parent is Some);
    }
    assert forall|k: int| 0 <= k < u.table.len() implies #[trigger] u.table[k] < u.entries.len() by {
        assert(t.table[k] < t.entries.len());
    }
}

/// A new directory without children keeps every link valid.
pub proof fn lemma_with_dir_linked(t: Tree, dir: DirModel)
    requires
        t.linked(),
        dir.children.len() == 0,
        dir.file is None,
    ensures
        t.with_dir(dir).linked(),
{
    let u = t.with_dir(dir);
    assert forall|d: int, j: int|
        0 <= d < u.dirs.len() && 0 <= j < u.dirs[d].children.len() implies #[trigger] u.dirs[d].children[j]
        < u.entries.len() by {
        if d < t.dirs.len() {
            assert(t.dirs[d].children[j] < t.entries.len());
        }
    }
    assert forall|d: int| 0 <= d < u.dirs.len() && (#[trigger] u.dirs[d]).file is Some implies u.dirs[d].file.unwrap()
        < u.entries.len() by {
        if d < t.dirs.len() {
            assert(t.dirs[d].file is Some);
        }
    }
    assert forall|i: int| 0 <= i < u.entries.len() && (#[trigger] u.entries[i]).folder is Some implies u.entries[i].folder.unwrap()
        < u.dirs.len() by {
        assert(t.entries[i].folder is Some);
    }
    assert forall|i: int| 0 <= i < u.entries.len() && (#[trigger] u.entries[i]).parent is Some implies u.entries[i].parent.unwrap()
        < u.dirs.len() by {
        assert(t.entries[i].parent is Some);
    }
}

/// A new entry whose links lead to directories that exist keeps every link
/// valid.
pub proof fn lemma_attach_linked(t: Tree, file: FileModel)
    requires
        t.linked(),
        file.folder is Some ==> file.folder.unwrap() < t.dirs.len(),
        file.parent is Some ==> file.parent.unwrap() < t.dirs.len(),
    ensures
        t.attach(file).linked(),
        t.attach(file).dirs.len() == t.dirs.len(),
        t.attach(file).entries.len() == t.entries.len() + 1,
{
    let u = t.attach(file);
    assert forall|d: int, j: int|
        0 <= d < u.dirs.len() && 0 <= j < u.dirs[d].children.len() implies #[trigger] u.dirs[d].children[j]
        < u.entries.len() by {
        if j < t.dirs[d].children.len() {
            assert(t.dirs[d].children[j] < t.entries.len());
        }
    }
    assert forall|d: int| 0 <= d < u.dirs.len() && (#[trigger] u.dirs[d]).file is Some implies u.dirs[d].file.unwrap()
        < u.entries.len() by {
        assert(t.dirs[d].file is Some);
    }
    assert forall|i: int| 0 <= i < u.entries.len() && (#[trigger] u.entries[i]).folder is Some implies u.entries[i].folder.unwrap()
        < u.dirs.len() by {
        if i < t.entries.len() {
            assert(t.entries[i].folder is Some);
        }
    }
    assert forall|i: int| 0 <= i < u.entries.len() && (#[trigger] u.entries[i]).parent is Some implies u.entries[i].parent.unwrap()
        < u.dirs.len() by {
        if i < t.entries.len() {
            assert(t.entries[i].parent is Some);
        }
    }
    assert forall|k: int| 0 <= k < u.table.len() implies #[trigger] u.table[k] < u.entries.len() by {
        assert(t.table[k] < t.entries.len());
    }
}

/// An entry that exists can stand for a directory.
pub proof fn lemma_with_self_file_linked(t: Tree, d: int, file: usize)
    requires
        t.linked(),
        0 <= d < t.dirs.len(),
        file < t.entries.len(),
    ensures
        t.with_self_file(d, file).linked(),
{
    let u = t.with_self_file(d, file);
    assert forall|e: int, j: int|
        0 <= e < u.dirs.len() && 0 <= j < u.dirs[e].children.len() implies #[trigger] u.dirs[e].children[j]
        < u.entries.len() by {
        assert(t.dirs[e].children[j] < t.entries.len());
    }
    assert forall|e: int| 0 <= e < u.dirs.len() && (#[trigger] u.dirs[e]).file is Some implies u.dirs[e].file.unwrap()
        < u.entries.len() by {
        if e != d {
            assert(t.dirs[e].file is Some);
        }
    }
}

/// Every link of an archive with a new directory leads somewhere.
pub proof fn lemma_with_folder_linked(t: Tree, name: Seq<char>, parent: Option<usize>)
    requires
        t.linked(),
        parent is Some ==> parent.unwrap() < t.dirs.len(),
    ensures
        t.with_folder(name, parent).linked(),
        t.with_folder(name, parent).dirs.len() == t.dirs.len() + 1,
        t.with_folder(name, parent).entries.len() == t.entries.len() + 3,
{
    let d = t.dirs.len() as usize;
    let folder = FileAttr(FileAttr::FOLDER);
    let t1 = t.with_dir(new_dir(name, false));
    lemma_with_dir_linked(t, new_dir(name, false));
    let t2 = t1.attach(new_file(name, folder, Some(d), parent));
    lemma_attach_linked(t1, new_file(name, folder, Some(d), parent));
    let t3 = t2.attach(new_file(dot_text(), folder, Some(d), Some(d)));
    lemma_attach_linked(t2, new_file(dot_text(), folder, Some(d), Some(d)));
    let t4 = t3.attach(new_file(dotdot_text(), folder, parent, Some(d)));
    lemma_attach_linked(t3, new_file(dotdot_text(), folder, parent, Some(d)));
    lemma_with_self_file_linked(t4, d as int, t.entries.len() as usize);
}

/// Every link of an archive with a new root leads somewhere.
pub proof fn lemma_with_root_linked(t: Tree, name: Seq<char>)
    requires
        t.linked(),
    ensures
        t.with_root(name).linked(),
        t.with_root(name).dirs.len() == t.dirs.len() + 1,
        t.with_root(name).entries.len() == t.entries.len() + 2,
{
    let d = t.dirs.len() as usize;
    let folder = FileAttr(FileAttr::FOLDER);
    let t1 = t.with_dir(new_dir(name, true));
    lemma_with_dir_linked(t, new_dir(name, true));
    let t2 = t1.attach(new_file(dot_text(), folder, Some(d), Some(d)));
    lemma_attach_linked(t1, new_file(dot_text(), folder, Some(d), Some(d)));
    lemma_attach_linked(t2, new_file(dotdot_text(), folder, None, Some(d)));
}

} // verus!
