//! The names on the way from the root to a directory or an entry, and the
//! files and directories that unpacking an archive makes.

use vstd::prelude::*;
use vstd::string::*;
use crate::archive::{dir_models, file_models};
use crate::nodes::directory::Directory;
use crate::nodes::file::{dot_name, File, is_dot_name};
use crate::tree::Tree;

verus! {

/// The texts of a list of names.
pub open spec fn texts(names: Seq<String>) -> Seq<Seq<char>> {
    Seq::new(names.len(), |i: int| names[i]@)
}

/// One thing that unpacking makes: a directory, or a file with the payload
/// of an entry. The path counts from the place to which the archive is
/// unpacked.
pub struct UnpackStep {
    pub path: Vec<String>,
    /// The entry whose payload the file holds; `None` for a directory.
    pub entry: Option<usize>,
}

/// What an unpacking step holds, as plain values.
pub struct StepModel {
    pub path: Seq<Seq<char>>,
    pub entry: Option<usize>,
}

impl View for UnpackStep {
    type V = StepModel;

    open spec fn view(&self) -> StepModel {
        StepModel { path: texts(self.path@), entry: self.entry }
    }
}

/// What a list of unpacking steps holds.
pub open spec fn step_models(steps: Seq<UnpackStep>) -> Seq<StepModel> {
    Seq::new(steps.len(), |i: int| steps[i]@)
}

impl Tree {
    /// The names from the directory `d` up to the root: its own, then that
    /// of the directory that lists the entry that stands for it, and so on,
    /// over at most `depth` further directories.
    pub open spec fn names_up(self, d: usize, depth: nat) -> Seq<Seq<char>>
        decreases depth,
    {
        if d >= self.dirs.len() {
            Seq::empty()
        } else {
            let above = match self.dirs[d as int].file {
                Some(f) => if depth > 0 && f < self.entries.len() && self.entries[f as int].parent
                    is Some {
                    self.names_up(self.entries[f as int].parent.unwrap(), (depth - 1) as nat)
                } else {
                    Seq::empty()
                },
                None => Seq::empty(),
            };
            seq![self.dirs[d as int].name] + above
        }
    }

    /// The names above a directory whose entry is `file`: those from the
    /// directory that lists the entry up to the root.
    pub open spec fn names_above(self, file: Option<usize>) -> Seq<Seq<char>> {
        match file {
            Some(f) => if f < self.entries.len() && self.entries[f as int].parent is Some
                && self.entries[f as int].parent.unwrap() < self.dirs.len() {
                self.names_up(self.entries[f as int].parent.unwrap(), self.dirs.len())
            } else {
                Seq::empty()
            },
            None => Seq::empty(),
        }
    }

    /// The names from the root down to the directory `d`.
    pub open spec fn dir_path(self, d: usize) -> Seq<Seq<char>> {
        self.names_up(d, self.dirs.len()).reverse()
    }

    /// The names from the root down to the entry `e`.
    pub open spec fn file_path(self, e: usize) -> Seq<Seq<char>> {
        (seq![self.entries[e as int].name] + match self.entries[e as int].parent {
            Some(p) => self.names_up(p, self.dirs.len()),
            None => Seq::empty(),
        }).reverse()
    }

    /// What unpacking the directory `d` to `path` makes, from its child at
    /// position `j` on: nothing for a child named `.` or `..`, what
    /// unpacking its directory makes for a child that stands for one, and a
    /// file for a child that is a file. Goes down at most `depth` levels.
    pub open spec fn plan_from(self, d: usize, j: int, path: Seq<Seq<char>>, depth: nat) -> Seq<StepModel>
        decreases depth, self.dirs[d as int].children.len() - j,
    {
        if d >= self.dirs.len() || j < 0 || j >= self.dirs[d as int].children.len() {
            Seq::empty()
        } else {
            let c = self.dirs[d as int].children[j];
            let file = self.entries[c as int];
            let here = if c >= self.entries.len() || is_dot_name(file.name_bytes()) {
                Seq::empty()
            } else if file.is_dir() && file.folder is Some {
                if depth > 0 {
                    self.plan_dir(file.folder.unwrap(), path.push(file.name), (depth - 1) as nat)
                } else {
                    Seq::empty()
                }
            } else if !(file.is_dir() && file.folder is Some) && file.is_file() {
                seq![StepModel { path: path.push(file.name), entry: Some(c) }]
            } else {
                Seq::empty()
            };
            here + self.plan_from(d, j + 1, path, depth)
        }
    }

    /// What unpacking the directory `d` to `path` makes: the directory
    /// itself, then what its children make.
    pub open spec fn plan_dir(self, d: usize, path: Seq<Seq<char>>, depth: nat) -> Seq<StepModel>
        decreases depth, self.dirs[d as int].children.len() + 1,
    {
        seq![StepModel { path, entry: None }] + self.plan_from(d, 0, path, depth)
    }

    /// What unpacking the archive makes: the root under its name, and all
    /// beneath it.
    pub open spec fn unpack_plan(self) -> Seq<StepModel> {
        if self.dirs.len() == 0 {
            Seq::empty()
        } else {
            self.plan_dir(0, seq![self.dirs[0].name], self.dirs.len())
        }
    }
}

/// A copy of a path.
pub fn copy_path(path: &Vec<String>) -> (copy: Vec<String>)
    ensures
        texts(copy@) == texts(path@),
{
    let mut copy: Vec<String> = Vec::new();
    let mut i: usize = 0;
    while i < path.len()
        invariant
            i <= path@.len(),
            copy@.len() == i,
            forall|k: int| 0 <= k < i ==> (#[trigger] copy@[k])@ == path@[k]@,
        decreases path@.len() - i,
    {
        copy.push(path[i].clone());
        i += 1;
    }
    assert(texts(copy@) =~= texts(path@));
    copy
}

/// A copy of a path with one more name.
pub fn extend_path(path: &Vec<String>, name: &String) -> (longer: Vec<String>)
    ensures
        texts(longer@) == texts(path@).push(name@),
{
    let mut longer = copy_path(path);
    let ghost before = longer@;
    longer.push(name.clone());
    assert(texts(longer@) =~= texts(before).push(name@));
    longer
}

/// Appends to `steps` what unpacking the directory `d` to `path` makes.
pub(crate) fn plan_dir(
    folders: &Vec<Directory>,
    nodes: &Vec<File>,
    d: usize,
    path: Vec<String>,
    depth: usize,
    steps: &mut Vec<UnpackStep>,
    Ghost(t): Ghost<Tree>,
)
    requires
        t.dirs == dir_models(folders@),
        t.entries == file_models(nodes@),
        t.linked(),
        d < folders@.len(),
    ensures
        step_models(final(steps)@) == step_models(old(steps)@) + t.plan_dir(d, texts(path@), depth as nat),
    decreases depth, folders@[d as int].children@.len() + 1,
{
    let ghost here = texts(path@);
    let ghost whole = step_models(steps@) + t.plan_dir(d, here, depth as nat);
    let ghost start = step_models(steps@);
    steps.push(UnpackStep { path: copy_path(&path), entry: None });
    assert(step_models(steps@) =~= start + seq![StepModel { path: here, entry: None }]);
    let count = folders[d].children.len();
    assert(t.dirs[d as int].children == folders@[d as int].children@);
    let mut j: usize = 0;
    while j < count
        invariant
            j <= count,
            count == t.dirs[d as int].children.len(),
            t.dirs == dir_models(folders@),
            t.entries == file_models(nodes@),
            t.linked(),
            d < folders@.len(),
            here == texts(path@),
            step_models(steps@) + t.plan_from(d, j as int, here, depth as nat) == whole,
        decreases count - j,
    {
        let c = folders[d].children[j];
        assert(c == t.dirs[d as int].children[j as int]);
        assert(c < nodes@.len());
        let file = &nodes[c];
        assert(file@ == t.entries[c as int]);
        let ghost before = step_models(steps@);
        let ghost rest = t.plan_from(d, j as int + 1, here, depth as nat);
        if dot_name(file.name.as_str().as_bytes()) {
            assert(before + rest =~= whole);
        } else if file.is_dir() && file.folder.is_some() {
            if depth > 0 {
                let f = file.folder.unwrap();
                assert(f < folders@.len());
                plan_dir(folders, nodes, f, extend_path(&path, &file.name), depth - 1, steps, Ghost(t));
                assert(step_models(steps@) + rest =~= whole);
            } else {
                assert(before + rest =~= whole);
            }
        } else if file.is_file() {
            steps.push(UnpackStep { path: extend_path(&path, &file.name), entry: Some(c) });
            assert(step_models(steps@) =~= before + seq![
                StepModel { path: here.push(file@.name), entry: Some(c) },
            ]);
            assert(step_models(steps@) + rest =~= whole);
        } else {
            assert(before + rest =~= whole);
        }
        j += 1;
    }
    proof {
        assert(t.plan_from(d, count as int, here, depth as nat) =~= Seq::<StepModel>::empty());
        assert(step_models(steps@) =~= whole);
    }
}

/// Appends to `names` the names from the directory `d` up to the root.
pub(crate) fn names_up(
    folders: &Vec<Directory>,
    nodes: &Vec<File>,
    d: usize,
    depth: usize,
    names: &mut Vec<String>,
    Ghost(t): Ghost<Tree>,
)
    requires
        t.dirs == dir_models(folders@),
        t.entries == file_models(nodes@),
        t.linked(),
        d < folders@.len(),
    ensures
        texts(final(names)@) == texts(old(names)@) + t.names_up(d, depth as nat),
    decreases depth,
{
    let ghost before = texts(names@);
    names.push(folders[d].name.clone());
    assert(folders@[d as int]@ == t.dirs[d as int]);
    assert(texts(names@) =~= before + seq![t.dirs[d as int].name]);
    let mut climbed = false;
    match folders[d].file {
        Some(f) => {
            assert(f < nodes@.len());
            assert(nodes@[f as int]@ == t.entries[f as int]);
            match nodes[f].parent {
                Some(p) => {
                    if depth > 0 {
                        assert(p < folders@.len());
                        names_up(folders, nodes, p, depth - 1, names, Ghost(t));
                        assert(texts(names@) =~= before + t.names_up(d, depth as nat));
                        climbed = true;
                    }
                },
                None => {},
            }
        },
        None => {},
    }
    proof {
        if !climbed {
            assert(texts(names@) =~= before + t.names_up(d, depth as nat));
        }
    }
}

/// The names in the opposite order.
pub fn reversed(names: &Vec<String>) -> (back: Vec<String>)
    ensures
        texts(back@) == texts(names@).reverse(),
{
    let mut back: Vec<String> = Vec::new();
    let mut i: usize = names.len();
    while i > 0
        invariant
            i <= names@.len(),
            back@.len() == names@.len() - i,
            forall|k: int| 0 <= k < back@.len() ==> (#[trigger] back@[k])@ == names@[names@.len() - 1 - k]@,
        decreases i,
    {
        i -= 1;
        back.push(names[i].clone());
    }
    assert(texts(back@) =~= texts(names@).reverse());
    back
}

/// Joins a path and a name with `std::path::Path::join` and gives the
/// result as text. Nothing is promised of it: the separator is that of the
/// machine.
#[verifier::external_body]
fn join_one(path: &str, name: &str) -> String {
    std::path::Path::new(path).join(name).to_string_lossy().into_owned()
}

/// The names of a path as one text, joined as the machine joins paths. The
/// text of no names is empty; of the text of any names nothing is promised.
pub fn join_path(names: &Vec<String>) -> (path: String)
    ensures
        names@.len() == 0 ==> path@ == Seq::<char>::empty(),
{
    let mut path = String::new();
    let mut i: usize = 0;
    while i < names.len()
        invariant
            i <= names@.len(),
            names@.len() == 0 ==> path@ == Seq::<char>::empty(),
        decreases names@.len() - i,
    {
        path = join_one(path.as_str(), names[i].as_str());
        i += 1;
    }
    path
}

} // verus!
