//! The archive: a tree of directories and files, read from and written to
//! the flat tables of the container format.

use vstd::prelude::*;
use vstd::string::*;
use crate::bytes::{Endian, pad_to_32, push_bytes};
use crate::error::ArchiveError;
use crate::header::{DataHeader, Header, Magic, read_headers_with};
use crate::image::{ARAM, DVD, MRAM};
use crate::names::{name_dirs, name_entries, name_table, sound_names, walk};
use crate::nodes::directory::{Directory, DirModel};
use crate::nodes::file::{dot_name, File, FileAttr, FileModel, is_dot_name};
use crate::parse::{Frame, parse, parsed_tree};
use crate::paths::{names_up, plan_dir, reversed, step_models, texts, UnpackStep};
use crate::read::{check_tables, link_children, parse_dirs, parse_files, read_names};
use crate::sort::{apply_dirs, apply_entries, fits};
use crate::table::Table;
use crate::tree::{dot_text, dotdot_text, Tree};
use crate::walk::{build_table, dir_order};
use crate::write::{
    emit_dirs, emit_files, emit_payloads, lemma_dir_records_len, lemma_file_records_len,
    lemma_span_add, pick_group, place, span_of,
};

verus! {

/// The plain values of a list of directories.
pub open spec fn dir_models(dirs: Seq<Directory>) -> Seq<DirModel> {
    Seq::new(dirs.len(), |i: int| dirs[i]@)
}

/// The plain values of a list of entries.
pub open spec fn file_models(files: Seq<File>) -> Seq<FileModel> {
    Seq::new(files.len(), |i: int| files[i]@)
}

/// What was found under a name in a directory that is being imported.
pub enum Found {
    /// A directory.
    Folder,
    /// A file with these bytes.
    File(Vec<u8>),
    /// Something that is neither.
    Other,
}

/// What was found, as plain values.
pub enum FoundModel {
    Folder,
    File(Seq<u8>),
    Other,
}

impl View for Found {
    type V = FoundModel;

    open spec fn view(&self) -> FoundModel {
        match self {
            Found::Folder => FoundModel::Folder,
            Found::File(data) => FoundModel::File(data@),
            Found::Other => FoundModel::Other,
        }
    }
}

/// Whether a file with the payload `data` cannot be imported: the payload
/// is longer than 32 bits count, or ids are no positions and none is left.
pub open spec fn import_too_large(t: Tree, data: Seq<u8>) -> bool {
    data.len() > u32::MAX || (!t.sync() && t.next_id() == u16::MAX)
}

/// What importing gives back: the position of a new directory, nothing
/// for anything else, and `TooLarge` for a file that cannot be imported.
pub open spec fn import_result(t: Tree, name: Seq<char>, found: FoundModel) -> Result<
    Option<usize>,
    ArchiveError,
> {
    if is_dot_name(vstd::utf8::encode_utf8(name)) {
        Ok(None)
    } else {
        match found {
            FoundModel::Folder => Ok(Some(t.dirs.len() as usize)),
            FoundModel::File(data) => if import_too_large(t, data) {
                Err(ArchiveError::TooLarge)
            } else {
                Ok(None)
            },
            FoundModel::Other => Ok(None),
        }
    }
}

/// The archive after an import: with a new directory, with a new entry
/// and its payload, or unchanged.
pub open spec fn after_import(
    t: Tree,
    name: Seq<char>,
    found: FoundModel,
    attr: FileAttr,
    parent: Option<usize>,
) -> Tree {
    if is_dot_name(vstd::utf8::encode_utf8(name)) {
        t
    } else {
        match found {
            FoundModel::Folder => t.with_folder(name, parent),
            FoundModel::File(data) => if import_too_large(t, data) {
                t
            } else {
                t.with_file(name, attr, parent).with_data(t.entries.len() as int, data)
            },
            FoundModel::Other => t,
        }
    }
}

/// An archive. Directories and entries refer to each other by position:
/// a directory by its place in the list of directories, an entry by its
/// place in the list of entries. Every such reference leads somewhere.
#[derive(Debug)]
pub struct Archive {
    header: Header,
    data_header: DataHeader,
    folders: Vec<Directory>,
    nodes: Vec<File>,
    files: Vec<usize>,
}

impl View for Archive {
    type V = Tree;

    closed spec fn view(&self) -> Tree {
        Tree {
            header: self.header,
            data_header: self.data_header,
            dirs: dir_models(self.folders@),
            entries: file_models(self.nodes@),
            table: self.files@,
        }
    }
}

/// Enters `file` into the list of entries, and into the children of its
/// parent, if it has one.
fn attach(folders: &mut Vec<Directory>, nodes: &mut Vec<File>, file: File) -> (handle: usize)
    requires
        file.parent is Some ==> file.parent.unwrap() < old(folders)@.len(),
    ensures
        handle == old(nodes)@.len(),
        final(nodes)@ == old(nodes)@.push(file),
        final(folders)@.len() == old(folders)@.len(),
        match file.parent {
            Some(p) => dir_models(final(folders)@) == dir_models(old(folders)@).update(
                p as int,
                DirModel {
                    children: old(folders)@[p as int].children@.push(handle),
                    ..old(folders)@[p as int]@
                },
            ),
            None => final(folders)@ == old(folders)@,
        },
{
    let handle = nodes.len();
    let parent = file.parent;
    nodes.push(file);
    match parent {
        Some(p) => {
            folders[p].children.push(handle);
            assert(dir_models(folders@) =~= dir_models(old(folders)@).update(
                p as int,
                DirModel {
                    children: old(folders)@[p as int].children@.push(handle),
                    ..old(folders)@[p as int]@
                },
            ));
        },
        None => {},
    }
    handle
}

impl Archive {
    #[verifier::type_invariant]
    spec fn well_linked(&self) -> bool {
        self@.linked()
    }

    /// An archive without directories and entries.
    pub fn new() -> (archive: Archive)
        ensures
            archive@ == Tree::empty(),
    {
        let archive = Archive {
            header: Header::new(),
            data_header: DataHeader::new(),
            folders: Vec::new(),
            nodes: Vec::new(),
            files: Vec::new(),
        };
        assert(archive@.dirs =~= Seq::<DirModel>::empty());
        assert(archive@.entries =~= Seq::<FileModel>::empty());
        archive
    }

    /// Takes the archive apart and leaves an empty one in its place.
    fn take(&mut self) -> (parts: (Header, DataHeader, Vec<Directory>, Vec<File>, Vec<usize>))
        ensures
            final(self)@ == Tree::empty(),
            old(self)@ == (Tree {
                header: parts.0,
                data_header: parts.1,
                dirs: dir_models(parts.2@),
                entries: file_models(parts.3@),
                table: parts.4@,
            }),
            old(self)@.linked(),
    {
        proof {
            use_type_invariant(&*self);
        }
        let mut whole = Archive::new();
        core::mem::swap(self, &mut whole);
        let Archive { header, data_header, folders, nodes, files } = whole;
        (header, data_header, folders, nodes, files)
    }

    /// Whether the id of a file is its position in the file table.
    pub fn sync(&self) -> (r: bool)
        ensures
            r == self@.sync(),
    {
        self.data_header.sync
    }

    /// Says whether the id of a file is to be its position in the file table.
    pub fn set_sync(&mut self, sync: bool)
        ensures
            final(self)@ == (Tree {
                data_header: DataHeader { sync, ..old(self)@.data_header },
                ..old(self)@
            }),
    {
        let (header, mut data_header, folders, nodes, files) = self.take();
        data_header.sync = sync;
        *self = Archive { header, data_header, folders, nodes, files };
    }

    /// The next free id.
    pub fn next_id(&self) -> (r: u16)
        ensures
            r == self@.next_id(),
    {
        self.data_header.next_idx
    }

    /// Sets the next free id.
    pub fn set_next_id(&mut self, id: u16)
        ensures
            final(self)@ == (Tree {
                data_header: DataHeader { next_idx: id, ..old(self)@.data_header },
                ..old(self)@
            }),
    {
        let (header, mut data_header, folders, nodes, files) = self.take();
        data_header.next_idx = id;
        *self = Archive { header, data_header, folders, nodes, files };
    }

    /// The header, as it was read or last written.
    pub fn header(&self) -> (h: Header)
        ensures
            h == self@.header,
    {
        self.header
    }

    /// The data header, as it was read or last written.
    pub fn data_header(&self) -> (h: DataHeader)
        ensures
            h == self@.data_header,
    {
        self.data_header
    }

    /// The number of directories.
    pub fn folder_count(&self) -> (n: usize)
        ensures
            n == self@.dirs.len(),
            self@.linked(),
    {
        proof {
            use_type_invariant(self);
        }
        self.folders.len()
    }

    /// The number of entries, in the file table or not.
    pub fn node_count(&self) -> (n: usize)
        ensures
            n == self@.entries.len(),
    {
        self.nodes.len()
    }

    /// The number of entries in the file table.
    pub fn file_count(&self) -> (n: usize)
        ensures
            n == self@.table.len(),
    {
        self.files.len()
    }

    /// The root directory, if the archive has any directory.
    pub fn root(&self) -> (r: Option<usize>)
        ensures
            r == (if self@.dirs.len() > 0 {
                Some(0usize)
            } else {
                None
            }),
    {
        if self.folders.len() > 0 {
            Some(0)
        } else {
            None
        }
    }

    /// The directory at position `d`.
    pub fn folder(&self, d: usize) -> (dir: &Directory)
        requires
            d < self@.dirs.len(),
        ensures
            dir@ == self@.dirs[d as int],
    {
        &self.folders[d]
    }

    /// The entry at position `handle`.
    pub fn node(&self, handle: usize) -> (file: &File)
        requires
            handle < self@.entries.len(),
        ensures
            file@ == self@.entries[handle as int],
    {
        &self.nodes[handle]
    }

    /// The entry at position `k` of the file table.
    pub fn file(&self, k: usize) -> (handle: usize)
        requires
            k < self@.table.len(),
        ensures
            handle == self@.table[k as int],
            handle < self@.entries.len(),
    {
        proof {
            use_type_invariant(self);
        }
        self.files[k]
    }

    /// Gives the entry `handle` its payload, and sets its size from it.
    pub fn set_data(&mut self, handle: usize, data: Vec<u8>)
        requires
            handle < old(self)@.entries.len(),
            data@.len() <= u32::MAX,
        ensures
            final(self)@ == old(self)@.with_data(handle as int, data@),
    {
        let (header, data_header, folders, mut nodes, files) = self.take();
        let size: u32 = data.len() as u32;
        nodes[handle].data = data;
        nodes[handle].node.data_size = size;
        proof {
            crate::tree::lemma_with_data_linked(old(self)@, handle as int, data@);
            assert(file_models(nodes@) =~= old(self)@.with_data(handle as int, data@).entries);
        }
        *self = Archive { header, data_header, folders, nodes, files };
    }

    /// An archive with a root directory named `name` and its two shortcuts.
    pub fn create(name: &str, sync: bool) -> (archive: Archive)
        ensures
            archive@ == (Tree {
                data_header: DataHeader { sync, ..Tree::empty().data_header },
                ..Tree::empty()
            }).with_root(name@),
    {
        let mut archive = Archive::new();
        archive.set_sync(sync);
        archive.create_root(name);
        archive
    }

    /// Adds the root directory and its two shortcuts.
    fn create_root(&mut self, name: &str)
        ensures
            final(self)@ == old(self)@.with_root(name@),
    {
        let (header, data_header, mut folders, mut nodes, files) = self.take();
        let ghost t0 = old(self)@;
        let d = folders.len();
        folders.push(Directory::create(name, true));
        let ghost t1 = t0.with_dir(crate::nodes::directory::new_dir(name@, true));
        assert(dir_models(folders@) =~= t1.dirs);
        proof {
            reveal_strlit(".");
            reveal_strlit("..");
            assert("."@ =~= dot_text());
            assert(".."@ =~= dotdot_text());
        }
        attach(&mut folders, &mut nodes, File::create(".", FileAttr(FileAttr::FOLDER), Some(d), Some(d)));
        let ghost t2 = t1.attach(crate::nodes::file::new_file(dot_text(), FileAttr(FileAttr::FOLDER), Some(d), Some(d)));
        assert(dir_models(folders@) =~= t2.dirs);
        assert(file_models(nodes@) =~= t2.entries);
        attach(&mut folders, &mut nodes, File::create("..", FileAttr(FileAttr::FOLDER), None, Some(d)));
        let ghost t3 = t2.attach(crate::nodes::file::new_file(dotdot_text(), FileAttr(FileAttr::FOLDER), None, Some(d)));
        assert(dir_models(folders@) =~= t3.dirs);
        assert(file_models(nodes@) =~= t3.entries);
        proof {
            crate::tree::lemma_with_root_linked(t0, name@);
        }
        *self = Archive { header, data_header, folders, nodes, files };
    }

    /// Adds an entry for a file named `name` beneath `parent`. Where ids are
    /// not positions, the entry takes the next free id. Returns the position
    /// of the new entry.
    pub fn create_file(&mut self, name: &str, attr: FileAttr, parent: Option<usize>) -> (handle: usize)
        requires
            parent is Some ==> parent.unwrap() < old(self)@.dirs.len(),
            !old(self)@.sync() ==> old(self)@.next_id() < u16::MAX,
        ensures
            handle == old(self)@.entries.len(),
            final(self)@ == old(self)@.with_file(name@, attr, parent),
    {
        let (header, mut data_header, mut folders, mut nodes, files) = self.take();
        let ghost t0 = old(self)@;
        let mut file = File::create(name, attr, None, parent);
        if !data_header.sync {
            file.node.id = data_header.next_idx;
            data_header.next_idx = data_header.next_idx + 1;
        }
        proof {
            crate::tree::lemma_attach_linked(t0, file@);
        }
        let handle = attach(&mut folders, &mut nodes, file);
        assert(dir_models(folders@) =~= t0.with_file(name@, attr, parent).dirs);
        assert(file_models(nodes@) =~= t0.with_file(name@, attr, parent).entries);
        *self = Archive { header, data_header, folders, nodes, files };
        handle
    }

    /// Reads an archive from `data`, where `native` is the byte order in
    /// which an archive is read whose magic is neither `RARC` nor `CRAR`.
    /// The archive then holds what the data describe, in place of what it
    /// held. Where the data cannot be read, the archive is left as it was.
    pub fn read_with(&mut self, data: &[u8], native: Endian) -> (res: Result<(), ArchiveError>)
        ensures
            match parse(data@, native) {
                Ok(tree) => res is Ok && final(self)@ == tree,
                Err(e) => res == Err::<(), ArchiveError>(e) && final(self)@ == old(self)@,
            },
    {
        let (endian, header, data_header) = match read_headers_with(data, native) {
            Ok(found) => found,
            Err(e) => {
                return Err(e);
            },
        };
        if !check_tables(&header, &data_header, data.len()) {
            return Err(ArchiveError::MalformedHeader);
        }
        let table = match read_names(data, &header, &data_header) {
            Ok(table) => table,
            Err(e) => {
                return Err(e);
            },
        };
        let ghost fr = Frame { endian, header, data_header, names: table@ };
        let mut folders = match parse_dirs(data, &header, &data_header, &table, endian, Ghost(fr)) {
            Ok(folders) => folders,
            Err(e) => {
                return Err(e);
            },
        };
        let mut nodes = match parse_files(
            data,
            &header,
            &data_header,
            &table,
            endian,
            &mut folders,
            Ghost(fr),
        ) {
            Ok(nodes) => nodes,
            Err(e) => {
                return Err(e);
            },
        };
        match link_children(Ghost(data@), &mut folders, &mut nodes, Ghost(fr)) {
            Ok(()) => {},
            Err(e) => {
                return Err(e);
            },
        }
        let count = nodes.len();
        let mut files: Vec<usize> = Vec::new();
        let mut k: usize = 0;
        while k < count
            invariant
                k <= count,
                files@.len() == k,
                forall|x: int| 0 <= x < k ==> #[trigger] files@[x] == x,
            decreases count - k,
        {
            files.push(k);
            k += 1;
        }
        proof {
            let tree = parsed_tree(data@, fr);
            assert(dir_models(folders@) =~= tree.dirs);
            assert(file_models(nodes@) =~= tree.entries);
            assert(files@ =~= tree.table);
            crate::parse::lemma_parsed_linked(data@, fr);
        }
        *self = Archive { header, data_header, folders, nodes, files };
        Ok(())
    }

    /// Reads an archive from `data`. An archive whose magic is neither
    /// `RARC` nor `CRAR` is read in the byte order of the machine, whichever
    /// that is.
    pub fn read(&mut self, data: &[u8]) -> (res: Result<(), ArchiveError>)
        ensures
            ({
                let big = parse(data@, Endian::Big);
                let little = parse(data@, Endian::Little);
                ||| match big {
                    Ok(tree) => res is Ok && final(self)@ == tree,
                    Err(e) => res == Err::<(), ArchiveError>(e) && final(self)@ == old(self)@,
                }
                ||| match little {
                    Ok(tree) => res is Ok && final(self)@ == tree,
                    Err(e) => res == Err::<(), ArchiveError>(e) && final(self)@ == old(self)@,
                }
            }),
    {
        self.read_with(data, crate::header::machine_endian())
    }

    /// Reads the string table that the headers of the archive describe from
    /// `data`, or fails with `MalformedHeader` if it does not lie inside
    /// the data.
    pub fn read_table(&self, data: &[u8]) -> (res: Result<Table, ArchiveError>)
        ensures
            match res {
                Ok(table) => {
                    &&& crate::parse::names_start(self@.header, self@.data_header)
                        + self@.data_header.string_tbl_size <= data@.len()
                    &&& table@ == crate::parse::names_of(data@, self@.header, self@.data_header)
                },
                Err(e) => {
                    &&& e == ArchiveError::MalformedHeader
                    &&& crate::parse::names_start(self@.header, self@.data_header)
                        + self@.data_header.string_tbl_size > data@.len()
                },
            },
    {
        read_names(data, &self.header, &self.data_header)
    }

    /// Rebuilds the file table from the tree: each directory's children
    /// stand together, shortcuts last, the directories in the order of a
    /// depth-first walk from the root. Gives every directory its range of
    /// the table, every directory entry the position of its directory, and
    /// every file its id. Fails with `InvalidTreeShape` where the
    /// directories beneath the root are no strict tree, and with `TooLarge`
    /// where a field cannot hold its value: the start of a directory's range
    /// or the number of its children, the position of a directory that an
    /// entry stands for, or the next free id. The archive is then unchanged.
    pub fn sort(&mut self) -> (res: Result<(), ArchiveError>)
        ensures
            match res {
                Ok(()) => {
                    &&& old(self)@.tree_shaped()
                    &&& old(self)@.sortable_size()
                    &&& final(self)@ == old(self)@.sorted()
                },
                Err(e) => {
                    &&& final(self)@ == old(self)@
                    &&& !old(self)@.tree_shaped() ==> e == ArchiveError::InvalidTreeShape
                    &&& old(self)@.tree_shaped() ==> e == ArchiveError::TooLarge
                        && !old(self)@.sortable_size()
                },
            },
    {
        let (header, mut data_header, mut folders, mut nodes, files) = self.take();
        let ghost t = old(self)@;
        let order = match dir_order(&folders, &nodes, Ghost(t)) {
            Some(order) => order,
            None => {
                *self = Archive { header, data_header, folders, nodes, files };
                return Err(ArchiveError::InvalidTreeShape);
            },
        };
        let (table, firsts) = match build_table(&folders, &nodes, &order, Ghost(t)) {
            Some(built) => built,
            None => {
                *self = Archive { header, data_header, folders, nodes, files };
                return Err(ArchiveError::InvalidTreeShape);
            },
        };
        assert(t.tree_shaped());
        if !fits(&nodes, &table, &firsts, data_header.sync, Ghost(t)) {
            *self = Archive { header, data_header, folders, nodes, files };
            return Err(ArchiveError::TooLarge);
        }
        apply_dirs(&mut folders, &nodes, &order, &firsts, Ghost(t));
        let next = apply_entries(&mut nodes, &table, data_header.sync, Ghost(t));
        data_header.next_idx = next;
        let node_count = nodes.len();
        let dir_count = folders.len();
        proof {
            let u = t.sorted();
            assert(u.entries.len() == node_count && u.dirs.len() == dir_count);
            assert forall|d: int, j: int|
                0 <= d < u.dirs.len() && 0 <= j < u.dirs[d].children.len() implies #[trigger] u.dirs[d].children[j]
                < u.entries.len() by {
                assert(dir_models(folders@)[d].children[j] == folders@[d].children@[j]);
            }
            assert forall|d: int| 0 <= d < u.dirs.len() && (#[trigger] u.dirs[d]).file is Some implies u.dirs[d].file.unwrap()
                < u.entries.len() by {
                assert(u.dirs[d].file == t.dirs[(d as usize) as int].file);
                assert(t.dirs[d].file is Some);
            }
            assert forall|i: int| 0 <= i < u.entries.len() && (#[trigger] u.entries[i]).folder is Some implies u.entries[i].folder.unwrap()
                < u.dirs.len() by {
                assert(u.entries[i].folder == t.entries[(i as usize) as int].folder);
                assert(t.entries[i].folder is Some);
            }
            assert forall|i: int| 0 <= i < u.entries.len() && (#[trigger] u.entries[i]).parent is Some implies u.entries[i].parent.unwrap()
                < u.dirs.len() by {
                assert(u.entries[i].parent == t.entries[(i as usize) as int].parent);
                assert(t.entries[i].parent is Some);
            }
        }
        *self = Archive { header, data_header, folders, nodes, files: table };
        Ok(())
    }

    /// Makes the string table: `.`, `..`, the name of the root, then the
    /// names of the entries in the order of a depth-first walk, each name
    /// once. Tells every entry where its name stands, and every directory
    /// where the name of the link stands that leads to it. Fails with
    /// `InvalidTreeShape` where the directories beneath the root are no
    /// strict tree, and with `TooLarge` where a name would start behind the
    /// 32-bit range; the archive is then unchanged.
    pub fn gen_table(&mut self) -> (res: Result<Table, ArchiveError>)
        ensures
            match res {
                Ok(table) => {
                    &&& old(self)@.tree_shaped()
                    &&& old(self)@.names_have_room()
                    &&& table@ == old(self)@.names_table()
                    &&& final(self)@ == old(self)@.named()
                },
                Err(e) => {
                    &&& final(self)@ == old(self)@
                    &&& !old(self)@.tree_shaped() ==> e == ArchiveError::InvalidTreeShape
                    &&& old(self)@.tree_shaped() ==> e == ArchiveError::TooLarge
                        && !old(self)@.names_have_room()
                },
            },
    {
        let (header, data_header, mut folders, mut nodes, files) = self.take();
        let ghost t = old(self)@;
        let shaped = match dir_order(&folders, &nodes, Ghost(t)) {
            Some(order) => build_table(&folders, &nodes, &order, Ghost(t)).is_some(),
            None => false,
        };
        if !shaped {
            *self = Archive { header, data_header, folders, nodes, files };
            return Err(ArchiveError::InvalidTreeShape);
        }
        assert(t.tree_shaped());
        let root_name: String = if folders.len() > 0 {
            folders[0].name.clone()
        } else {
            String::new()
        };
        let listed = walk(&folders, &nodes, Ghost(t));
        let (table, offs) = match name_table(&nodes, root_name.as_str(), &listed, Ghost(t)) {
            Some(made) => made,
            None => {
                *self = Archive { header, data_header, folders, nodes, files };
                return Err(ArchiveError::TooLarge);
            },
        };
        name_dirs(&mut folders, &nodes, &listed, &offs, Ghost(t));
        name_entries(&mut nodes, &listed, &offs, Ghost(t));
        let node_count = nodes.len();
        let dir_count = folders.len();
        proof {
            let u = t.named();
            assert(u.entries.len() == node_count && u.dirs.len() == dir_count);
            assert forall|d: int, j: int|
                0 <= d < u.dirs.len() && 0 <= j < u.dirs[d].children.len() implies #[trigger] u.dirs[d].children[j]
                < u.entries.len() by {
                assert(t.dirs[d].children[j] < t.entries.len());
            }
            assert forall|d: int| 0 <= d < u.dirs.len() && (#[trigger] u.dirs[d]).file is Some implies u.dirs[d].file.unwrap()
                < u.entries.len() by {
                assert(t.dirs[d].file is Some);
            }
            assert forall|i: int| 0 <= i < u.entries.len() && (#[trigger] u.entries[i]).folder is Some implies u.entries[i].folder.unwrap()
                < u.dirs.len() by {
                assert(u.entries[i].folder == t.entries[(i as usize) as int].folder);
                assert(t.entries[i].folder is Some);
            }
            assert forall|i: int| 0 <= i < u.entries.len() && (#[trigger] u.entries[i]).parent is Some implies u.entries[i].parent.unwrap()
                < u.dirs.len() by {
                assert(u.entries[i].parent == t.entries[(i as usize) as int].parent);
                assert(t.entries[i].parent is Some);
            }
            assert forall|k: int| 0 <= k < u.table.len() implies #[trigger] u.table[k] < u.entries.len() by {
                assert(t.table[k] < t.entries.len());
            }
        }
        *self = Archive { header, data_header, folders, nodes, files };
        Ok(table)
    }

    /// Whether every name that is written can be found again in the string
    /// table: the name of the root and the names of the entries beneath it
    /// are not empty and hold no zero byte. Fails with `InvalidTreeShape`
    /// where the directories beneath the root are no strict tree.
    pub fn names_found(&self) -> (res: Result<bool, ArchiveError>)
        ensures
            match res {
                Ok(sound) => self@.tree_shaped() && sound == self@.names_sound(),
                Err(e) => e == ArchiveError::InvalidTreeShape && !self@.tree_shaped(),
            },
    {
        proof {
            use_type_invariant(self);
        }
        let shaped = match dir_order(&self.folders, &self.nodes, Ghost(self@)) {
            Some(order) => build_table(&self.folders, &self.nodes, &order, Ghost(self@)).is_some(),
            None => false,
        };
        if !shaped {
            return Err(ArchiveError::InvalidTreeShape);
        }
        let listed = walk(&self.folders, &self.nodes, Ghost(self@));
        Ok(sound_names(&self.folders, &self.nodes, &listed, Ghost(self@)))
    }

    /// The archive as bytes in the byte order `endian`: the magic and the
    /// two headers, the directory table, the file table, the string table
    /// and the payloads, grouped by where they are loaded: main RAM,
    /// auxiliary RAM, then the disc, with which the payloads stand that
    /// name no place. Every entry
    /// learns where its name stands, and every entry with a payload where
    /// the payload starts, counted from the first payload. Fails with
    /// `InvalidTreeShape` where the directories beneath the root are no
    /// strict tree, and with `InvalidName` where a name is empty or holds a
    /// zero byte; the archive is then unchanged. Fails with `TooLarge`
    /// where the archive does not fit the format, and nothing is then
    /// promised of what the entries know of their names and payloads.
    pub fn to_bytes(&mut self, endian: Endian) -> (res: Result<Vec<u8>, ArchiveError>)
        ensures
            match res {
                Ok(bytes) => {
                    &&& old(self)@.tree_shaped()
                    &&& old(self)@.writable()
                    &&& final(self)@ == old(self)@.written()
                    &&& bytes@ == old(self)@.bytes(endian)
                },
                Err(e) => {
                    &&& !old(self)@.tree_shaped() ==> e == ArchiveError::InvalidTreeShape && final(self)@
                        == old(self)@
                    &&& old(self)@.tree_shaped() && !old(self)@.names_sound() ==> e
                        == ArchiveError::InvalidName && final(self)@ == old(self)@
                    &&& old(self)@.tree_shaped() && old(self)@.names_sound() ==> e == ArchiveError::TooLarge
                        && !old(self)@.writable()
                },
            },
    {
        let ghost t0 = old(self)@;
        match self.names_found() {
            Ok(true) => {},
            Ok(false) => {
                return Err(ArchiveError::InvalidName);
            },
            Err(e) => {
                return Err(e);
            },
        }
        let table = match self.gen_table() {
            Ok(table) => table,
            Err(e) => {
                return Err(e);
            },
        };
        let ghost names = t0.names_table();
        let ghost t1 = t0.named();
        let ghost t2 = t1.placed();
        let (header, data_header, folders, mut nodes, files) = self.take();
        let mut list: Vec<usize> = Vec::new();
        pick_group(&nodes, &files, MRAM, &mut list, Ghost(t1));
        let ghost first = list@;
        pick_group(&nodes, &files, ARAM, &mut list, Ghost(t1));
        let ghost second = list@;
        pick_group(&nodes, &files, DVD, &mut list, Ghost(t1));
        assert(list@ =~= t1.payload_order());
        let mut mram: Vec<usize> = Vec::new();
        pick_group(&nodes, &files, MRAM, &mut mram, Ghost(t1));
        let mut aram: Vec<usize> = Vec::new();
        pick_group(&nodes, &files, ARAM, &mut aram, Ghost(t1));
        let mut dvd: Vec<usize> = Vec::new();
        pick_group(&nodes, &files, DVD, &mut dvd, Ghost(t1));
        proof {
            assert(mram@ =~= t1.group(MRAM));
            assert(aram@ =~= t1.group(ARAM));
            assert(dvd@ =~= t1.group(DVD));
            lemma_span_add(t1, t1.group(MRAM), t1.group(ARAM));
            lemma_span_add(t1, t1.group(MRAM) + t1.group(ARAM), t1.group(DVD));
            crate::write::lemma_placed_order(t1);
            crate::write::lemma_placed_span(t1, list@);
            crate::write::lemma_placed_span(t1, mram@);
            crate::write::lemma_placed_span(t1, aram@);
            crate::write::lemma_placed_span(t1, dvd@);
        }
        let sizes = (
            span_of(&nodes, &list, Ghost(t1)),
            span_of(&nodes, &mram, Ghost(t1)),
            span_of(&nodes, &aram, Ghost(t1)),
            span_of(&nodes, &dvd, Ghost(t1)),
            table.total_size(),
        );
        let (total, mram_size, aram_size, dvd_size, names_size) = match sizes {
            (Some(total), Some(mram_size), Some(aram_size), Some(dvd_size), Some(names_size)) => (
                total,
                mram_size,
                aram_size,
                dvd_size,
                names_size,
            ),
            _ => {
                *self = Archive { header, data_header, folders, nodes, files };
                return Err(ArchiveError::TooLarge);
            },
        };
        place(&mut nodes, &list, Ghost(t1));
        proof {
            assert(t2.dirs == t1.dirs);
            assert(t2.table == t1.table);
            assert(file_models(nodes@) == t2.entries);
            crate::write::lemma_placed_linked(t1);
        }
        let mut dir_section: Vec<u8> = Vec::new();
        let mut file_section: Vec<u8> = Vec::new();
        if !emit_dirs(&folders, endian, &mut dir_section, Ghost(t2)) || !emit_files(
            &nodes,
            &files,
            endian,
            &mut file_section,
            Ghost(t2),
        ) {
            *self = Archive { header, data_header, folders, nodes, files };
            return Err(ArchiveError::TooLarge);
        }
        pad_to_32(&mut dir_section);
        pad_to_32(&mut file_section);
        proof {
            lemma_dir_records_len(t2, endian, t2.dirs.len() as int);
            lemma_file_records_len(t2, endian, t2.table.len() as int);
            assert(dir_section@ =~= t2.dir_section(endian));
            assert(file_section@ =~= t2.file_section(endian));
        }
        let strings = table.serialize();
        if dir_section.len() > 0xFFFF_FFFF || file_section.len() > 0xFFFF_FFFF || folders.len()
            > 0xFFFF_FFFF || files.len() > 0xFFFF_FFFF {
            *self = Archive { header, data_header, folders, nodes, files };
            return Err(ArchiveError::TooLarge);
        }
        let file_table_off: u64 = 0x40 + dir_section.len() as u64;
        let string_table_off: u64 = file_table_off + file_section.len() as u64;
        let payload_off: u64 = string_table_off + names_size as u64;
        let whole: u64 = payload_off + total as u64;
        if whole > 0xFFFF_FFFF {
            *self = Archive { header, data_header, folders, nodes, files };
            return Err(ArchiveError::TooLarge);
        }
        let written_header = Header {
            size: whole as u32,
            data_header_off: 0x20,
            file_data_off: (payload_off - 0x20) as u32,
            file_data_len: total,
            mram_size,
            aram_size,
            dvd_size,
        };
        let written_data_header = DataHeader {
            dir_node_count: folders.len() as u32,
            dir_node_off: 0x20,
            file_node_count: files.len() as u32,
            file_node_off: (file_table_off - 0x20) as u32,
            string_tbl_size: names_size,
            string_tbl_off: (string_table_off - 0x20) as u32,
            next_idx: data_header.next_idx,
            sync: data_header.sync,
        };
        assert(written_header == t2.image_header(names));
        assert(written_data_header == t2.image_data_header(names));
        let mut out: Vec<u8> = Vec::new();
        Magic::from_endian(endian).write(&mut out);
        written_header.write(&mut out, endian);
        written_data_header.write(&mut out, endian);
        push_bytes(&mut out, dir_section.as_slice());
        push_bytes(&mut out, file_section.as_slice());
        push_bytes(&mut out, strings.as_slice());
        emit_payloads(&nodes, &list, &mut out, Ghost(t2));
        proof {
            reveal(Tree::bytes);
            assert(out@ =~= t2.image(names, endian));
        }
        *self = Archive { header, data_header, folders, nodes, files };
        Ok(out)
    }

    /// Puts the archive as bytes into `out`, in place of what `out` held.
    /// Where the archive cannot be written, `out` is left as it was.
    pub fn write(&mut self, out: &mut Vec<u8>, endian: Endian) -> (res: Result<(), ArchiveError>)
        ensures
            match res {
                Ok(()) => {
                    &&& old(self)@.tree_shaped()
                    &&& old(self)@.writable()
                    &&& final(self)@ == old(self)@.written()
                    &&& final(out)@ == old(self)@.bytes(endian)
                },
                Err(e) => {
                    &&& final(out)@ == old(out)@
                    &&& !old(self)@.tree_shaped() ==> e == ArchiveError::InvalidTreeShape && final(self)@
                        == old(self)@
                    &&& old(self)@.tree_shaped() && !old(self)@.names_sound() ==> e
                        == ArchiveError::InvalidName && final(self)@ == old(self)@
                    &&& old(self)@.tree_shaped() && old(self)@.names_sound() ==> e == ArchiveError::TooLarge
                        && !old(self)@.writable()
                },
            },
    {
        match self.to_bytes(endian) {
            Ok(bytes) => {
                *out = bytes;
                Ok(())
            },
            Err(e) => Err(e),
        }
    }

    /// What unpacking the archive makes: a directory for the root under its
    /// name and for every directory beneath it, and a file for every entry
    /// that is a file, each with its path beneath the place to which the
    /// archive is unpacked. Entries named `.` or `..` make nothing. Fails
    /// with `InvalidTreeShape` where the directories beneath the root are no
    /// strict tree.
    pub fn unpack_plan(&self) -> (res: Result<Vec<UnpackStep>, ArchiveError>)
        ensures
            match res {
                Ok(steps) => self@.tree_shaped() && step_models(steps@) == self@.unpack_plan(),
                Err(e) => e == ArchiveError::InvalidTreeShape && !self@.tree_shaped(),
            },
    {
        proof {
            use_type_invariant(self);
        }
        let shaped = match dir_order(&self.folders, &self.nodes, Ghost(self@)) {
            Some(order) => build_table(&self.folders, &self.nodes, &order, Ghost(self@)).is_some(),
            None => false,
        };
        if !shaped {
            return Err(ArchiveError::InvalidTreeShape);
        }
        let mut steps: Vec<UnpackStep> = Vec::new();
        if self.folders.len() > 0 {
            let mut path: Vec<String> = Vec::new();
            path.push(self.folders[0].name.clone());
            assert(texts(path@) =~= seq![self@.dirs[0].name]);
            plan_dir(&self.folders, &self.nodes, 0, path, self.folders.len(), &mut steps, Ghost(self@));
        }
        assert(step_models(steps@) =~= self@.unpack_plan());
        Ok(steps)
    }

    /// Appends to `names` the names from the directory `d` up to the root.
    pub fn add_names_from(&self, d: usize, names: &mut Vec<String>)
        requires
            d < self@.dirs.len(),
        ensures
            texts(final(names)@) == texts(old(names)@) + self@.names_up(d, self@.dirs.len()),
    {
        proof {
            use_type_invariant(self);
        }
        names_up(&self.folders, &self.nodes, d, self.folders.len(), names, Ghost(self@));
    }

    /// The names on the way from the root down to the directory `d`.
    pub fn dir_names(&self, d: usize) -> (names: Vec<String>)
        requires
            d < self@.dirs.len(),
        ensures
            texts(names@) == self@.dir_path(d),
    {
        proof {
            use_type_invariant(self);
        }
        let mut up: Vec<String> = Vec::new();
        names_up(&self.folders, &self.nodes, d, self.folders.len(), &mut up, Ghost(self@));
        assert(texts(up@) =~= self@.names_up(d, self@.dirs.len()));
        reversed(&up)
    }

    /// The names on the way from the root down to the entry `handle`.
    pub fn file_names(&self, handle: usize) -> (names: Vec<String>)
        requires
            handle < self@.entries.len(),
        ensures
            texts(names@) == self@.file_path(handle),
    {
        proof {
            use_type_invariant(self);
        }
        let mut up: Vec<String> = Vec::new();
        up.push(self.nodes[handle].name.clone());
        assert(self.nodes@[handle as int]@ == self@.entries[handle as int]);
        assert(texts(up@) =~= seq![self@.entries[handle as int].name]);
        match self.nodes[handle].parent {
            Some(p) => {
                names_up(&self.folders, &self.nodes, p, self.folders.len(), &mut up, Ghost(self@));
            },
            None => {
                assert(texts(up@) =~= seq![self@.entries[handle as int].name] + Seq::<Seq<char>>::empty());
            },
        }
        reversed(&up)
    }

    /// Takes into the archive what was found under `name` in a directory
    /// that is being imported beneath `parent`. Names `.` and `..` and what
    /// is neither a directory nor a file are passed over. A directory
    /// becomes a directory of the archive, whose position is returned so
    /// that its contents can follow. A file becomes an entry with its bytes
    /// as payload; where ids are no positions and none is left, or the
    /// bytes are more than 32 bits count, the import fails with `TooLarge`
    /// and the archive is unchanged.
    pub fn import_entry(&mut self, name: &str, found: Found, attr: FileAttr, parent: Option<usize>) -> (res:
        Result<Option<usize>, ArchiveError>)
        requires
            parent is Some ==> parent.unwrap() < old(self)@.dirs.len(),
        ensures
            res == import_result(old(self)@, name@, found@),
            final(self)@ == after_import(old(self)@, name@, found@, attr, parent),
    {
        if dot_name(name.as_bytes()) {
            return Ok(None);
        }
        match found {
            Found::Folder => Ok(Some(self.create_folder(name, parent))),
            Found::File(data) => {
                if data.len() > 0xFFFF_FFFF || (!self.sync() && self.next_id() == u16::MAX) {
                    return Err(ArchiveError::TooLarge);
                }
                let handle = self.create_file(name, attr, parent);
                self.set_data(handle, data);
                Ok(None)
            },
            Found::Other => Ok(None),
        }
    }

    /// Adds a directory named `name` with its two shortcuts. With a parent,
    /// the directory is entered among the parent's children. Returns the
    /// position of the new directory.
    pub fn create_folder(&mut self, name: &str, parent: Option<usize>) -> (d: usize)
        requires
            parent is Some ==> parent.unwrap() < old(self)@.dirs.len(),
        ensures
            d == old(self)@.dirs.len(),
            final(self)@ == old(self)@.with_folder(name@, parent),
    {
        let (header, data_header, mut folders, mut nodes, files) = self.take();
        let ghost t0 = old(self)@;
        let d = folders.len();
        folders.push(Directory::create(name, false));
        assert(dir_models(folders@) =~= t0.with_dir(crate::nodes::directory::new_dir(name@, false)).dirs);
        let ghost t1 = t0.with_dir(crate::nodes::directory::new_dir(name@, false));
        let link = attach(&mut folders, &mut nodes, File::create(name, FileAttr(FileAttr::FOLDER), Some(d), parent));
        let ghost t2 = t1.attach(crate::nodes::file::new_file(name@, FileAttr(FileAttr::FOLDER), Some(d), parent));
        assert(dir_models(folders@) =~= t2.dirs);
        assert(file_models(nodes@) =~= t2.entries);
        proof {
            reveal_strlit(".");
            reveal_strlit("..");
            assert("."@ =~= dot_text());
            assert(".."@ =~= dotdot_text());
        }
        attach(&mut folders, &mut nodes, File::create(".", FileAttr(FileAttr::FOLDER), Some(d), Some(d)));
        let ghost t3 = t2.attach(crate::nodes::file::new_file(dot_text(), FileAttr(FileAttr::FOLDER), Some(d), Some(d)));
        assert(dir_models(folders@) =~= t3.dirs);
        assert(file_models(nodes@) =~= t3.entries);
        attach(&mut folders, &mut nodes, File::create("..", FileAttr(FileAttr::FOLDER), parent, Some(d)));
        let ghost t4 = t3.attach(crate::nodes::file::new_file(dotdot_text(), FileAttr(FileAttr::FOLDER), parent, Some(d)));
        assert(dir_models(folders@) =~= t4.dirs);
        assert(file_models(nodes@) =~= t4.entries);
        folders[d].file = Some(link);
        let ghost t5 = t4.with_self_file(d as int, link);
        assert(dir_models(folders@) =~= t5.dirs);
        proof {
            crate::tree::lemma_with_folder_linked(t0, name@, parent);
            assert(t5 == t0.with_folder(name@, parent));
        }
        *self = Archive { header, data_header, folders, nodes, files };
        d
    }
}

impl Default for Archive {
    /// An archive without directories and entries.
    fn default() -> (archive: Archive)
        ensures
            archive@ == Tree::empty(),
    {
        Archive::new()
    }
}

} // verus!
