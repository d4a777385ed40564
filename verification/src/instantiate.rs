//! The instantiation engine, verified over an explicit filesystem state.
//! `FsModel` holds the set of paths that exist; instantiating a node
//! consults and updates it and yields the ordered trace of effects
//! (directories created, files written with their rendered content, hook
//! command strings to run and their working directories, nodes skipped).
//! These functions fix the reference semantics; the shell that touches the
//! real filesystem performs the same walk, checking existence live and
//! taking every computed decision — target names, rendered content,
//! command splitting, the skip-if-exists rule, the single-child rename
//! rule, traversal order — from the verified functions here.

use vstd::prelude::*;
use vstd::string::StrSliceExecFns;

use crate::normalize::dedent;
use crate::normalize::remove_indentation;
use crate::normalize::unescape_xml;
use crate::normalize::unescape_xml_seq;
use crate::text::push_str;
use crate::text::str_eq;
use crate::text::to_owned_str;
use crate::txml_elements::dir_view;
use crate::txml_elements::dirs_view;
use crate::txml_elements::lemma_dirs_view;
use crate::txml_elements::Directory;
use crate::txml_elements::DirV;
use crate::txml_elements::File;
use crate::txml_elements::FileV;
use crate::txml_structure::StructV;
use crate::txml_structure::TxmlStructure;

verus! {

broadcast use vstd::std_specs::vec::group_vec_axioms;

// ---------------------------------------------------------------------------
// The filesystem model
// ---------------------------------------------------------------------------
/// The paths that exist, as plain strings.
pub struct FsModel {
    paths: Vec<String>,
}

impl View for FsModel {
    type V = Seq<Seq<char>>;

    closed spec fn view(&self) -> Seq<Seq<char>> {
        self.paths.deep_view()
    }
}

/// `p` is among the existing paths.
pub open spec fn fs_has(fs: Seq<Seq<char>>, p: Seq<char>) -> bool {
    exists|i: int| 0 <= i < fs.len() && fs[i] == p
}

impl FsModel {
    /// A model in which no path exists.
    pub fn new() -> (r: FsModel)
        ensures
            r@ == Seq::<Seq<char>>::empty(),
    {
        let r = FsModel { paths: Vec::new() };
        proof {
            assert(r@ =~= Seq::<Seq<char>>::empty());
        }
        r
    }

    /// A model in which exactly the given paths exist.
    pub fn from_paths(paths: Vec<String>) -> (r: FsModel)
        ensures
            r@ == paths.deep_view(),
    {
        FsModel { paths }
    }

    /// Whether `p` exists.
    pub fn contains_path(&self, p: &str) -> (r: bool)
        ensures
            r == fs_has(self@, p@),
    {
        let mut i: usize = 0;
        while i < self.paths.len()
            invariant
                0 <= i <= self.paths@.len(),
                forall|j: int| 0 <= j < i ==> self@[j] != p@,
            decreases self.paths@.len() - i,
        {
            if str_eq(self.paths[i].as_str(), p) {
                assert(self@[i as int] == p@);
                return true;
            }
            i = i + 1;
        }
        false
    }

    /// Record that `p` now exists.
    fn add_path(&mut self, p: &str)
        ensures
            final(self)@ == old(self)@.push(p@),
    {
        self.paths.push(to_owned_str(p));
        proof {
            assert(self@ =~= old(self)@.push(p@));
        }
    }
}

// ---------------------------------------------------------------------------
// Effects and their spec
// ---------------------------------------------------------------------------
/// One external effect of instantiation, in order.
pub enum FsOp {
    /// A directory was created at the path.
    CreatedDir(String),
    /// A file was written at the path with the rendered content.
    WroteFile(String, String),
    /// A hook command string is run with the given working directory.
    RanCommand(String, String),
    /// The node's target path already existed: nothing was done for it or,
    /// for a directory, for anything beneath it.
    SkippedExisting(String),
}

/// Spec mirror of `FsOp`.
pub ghost enum FsOpV {
    CreatedDir(Seq<char>),
    WroteFile(Seq<char>, Seq<char>),
    RanCommand(Seq<char>, Seq<char>),
    SkippedExisting(Seq<char>),
}

impl View for FsOp {
    type V = FsOpV;

    open spec fn view(&self) -> FsOpV {
        match self {
            FsOp::CreatedDir(p) => FsOpV::CreatedDir(p@),
            FsOp::WroteFile(p, c) => FsOpV::WroteFile(p@, c@),
            FsOp::RanCommand(c, d) => FsOpV::RanCommand(c@, d@),
            FsOp::SkippedExisting(p) => FsOpV::SkippedExisting(p@),
        }
    }
}

impl DeepView for FsOp {
    type V = FsOpV;

    open spec fn deep_view(&self) -> FsOpV {
        self.view()
    }
}

/// A child path: the parent, a separator, the child's name.
pub open spec fn spec_join_path(dir: Seq<char>, name: Seq<char>) -> Seq<char> {
    dir + "/"@ + name
}

/// The target file name: the output name alone when the extension is
/// empty, else name, dot, extension.
pub open spec fn spec_file_target(f: FileV, name: Seq<char>) -> Seq<char> {
    if f.extension.len() == 0 {
        name
    } else {
        name + "."@ + f.extension
    }
}

/// The bytes written for a file: its captured body dedented, then
/// unescaped.
pub open spec fn spec_rendered_content(f: FileV) -> Seq<char> {
    unescape_xml_seq(dedent(f.content))
}

/// Instantiating a file under `dir` with output name `name`: if the target
/// path exists, nothing happens; otherwise the rendered content is written
/// and the file's hook, when non-empty, runs with `dir` as working
/// directory.
pub open spec fn spec_inst_file(f: FileV, dir: Seq<char>, name: Seq<char>, fs: Seq<Seq<char>>) -> (
    Seq<Seq<char>>,
    Seq<FsOpV>,
) {
    let path = spec_join_path(dir, spec_file_target(f, name));
    if fs_has(fs, path) {
        (fs, seq![FsOpV::SkippedExisting(path)])
    } else {
        (
            fs.push(path),
            seq![FsOpV::WroteFile(path, spec_rendered_content(f))] + (if f.command.len() > 0 {
                seq![FsOpV::RanCommand(f.command, dir)]
            } else {
                Seq::<FsOpV>::empty()
            }),
        )
    }
}

/// Instantiating a directory under `dir` with output name `name`: if the
/// target path exists, nothing happens — hooks are not run and children
/// are not descended into.  Otherwise the directory is created, its
/// `in_command` hook (when non-empty) runs inside it, its `out_command`
/// hook (when non-empty) runs in `dir`, and its child files then child
/// directories are instantiated beneath it under their declared names.
pub open spec fn spec_inst_dir(d: DirV, dir: Seq<char>, name: Seq<char>, fs: Seq<Seq<char>>) -> (
    Seq<Seq<char>>,
    Seq<FsOpV>,
)
    decreases d, 1int,
{
    let path = spec_join_path(dir, name);
    if fs_has(fs, path) {
        (fs, seq![FsOpV::SkippedExisting(path)])
    } else {
        let fs1 = fs.push(path);
        let cmd_ops = (if d.in_command.len() > 0 {
            seq![FsOpV::RanCommand(d.in_command, path)]
        } else {
            Seq::<FsOpV>::empty()
        }) + (if d.out_command.len() > 0 {
            seq![FsOpV::RanCommand(d.out_command, dir)]
        } else {
            Seq::<FsOpV>::empty()
        });
        let files_r = spec_inst_files(d.files, path, fs1, 0);
        let dirs_r = spec_inst_dirs(d.dirs, path, files_r.0, 0);
        (dirs_r.0, seq![FsOpV::CreatedDir(path)] + cmd_ops + files_r.1 + dirs_r.1)
    }
}

/// Instantiating the files of `fl` from index `i` on, each under its
/// declared name.
pub open spec fn spec_inst_files(fl: Seq<FileV>, dir: Seq<char>, fs: Seq<Seq<char>>, i: int) -> (
    Seq<Seq<char>>,
    Seq<FsOpV>,
)
    decreases fl.len() - i,
{
    if i < 0 || i >= fl.len() {
        (fs, Seq::<FsOpV>::empty())
    } else {
        let head = spec_inst_file(fl[i], dir, fl[i].name, fs);
        let rest = spec_inst_files(fl, dir, head.0, i + 1);
        (rest.0, head.1 + rest.1)
    }
}

/// Instantiating the directories of `ds` from index `i` on, each under its
/// declared name.
pub open spec fn spec_inst_dirs(ds: Seq<DirV>, dir: Seq<char>, fs: Seq<Seq<char>>, i: int) -> (
    Seq<Seq<char>>,
    Seq<FsOpV>,
)
    decreases ds, ds.len() - i,
{
    if i < 0 || i >= ds.len() {
        (fs, Seq::<FsOpV>::empty())
    } else {
        let head = spec_inst_dir(ds[i], dir, ds[i].name, fs);
        let rest = spec_inst_dirs(ds, dir, head.0, i + 1);
        (rest.0, head.1 + rest.1)
    }
}

/// Instantiating a whole structure under `dir`: its top-level files, then
/// its top-level directories, each under its declared name.
pub open spec fn spec_inst_struct(sv: StructV, dir: Seq<char>, fs: Seq<Seq<char>>) -> (
    Seq<Seq<char>>,
    Seq<FsOpV>,
) {
    let files_r = spec_inst_files(sv.files, dir, fs, 0);
    let dirs_r = spec_inst_dirs(sv.dirs, dir, files_r.0, 0);
    (dirs_r.0, files_r.1 + dirs_r.1)
}

/// The single-child rename rule: when the structure has more than one
/// direct child or is not renamable, the output name is ignored and every
/// node keeps its declared name; when it has exactly one direct child and
/// is renamable, that child is instantiated under the output name, its own
/// descendants keeping their declared names; with no children nothing
/// happens.
pub open spec fn spec_inst_struct_with_name(
    sv: StructV,
    dir: Seq<char>,
    name: Seq<char>,
    fs: Seq<Seq<char>>,
) -> (Seq<Seq<char>>, Seq<FsOpV>) {
    if sv.files.len() + sv.dirs.len() > 1 || !sv.renamable {
        spec_inst_struct(sv, dir, fs)
    } else if sv.files.len() == 1 {
        spec_inst_file(sv.files[0], dir, name, fs)
    } else if sv.dirs.len() == 1 {
        spec_inst_dir(sv.dirs[0], dir, name, fs)
    } else {
        (fs, Seq::<FsOpV>::empty())
    }
}

} // verus!

verus! {

// ---------------------------------------------------------------------------
// Executable instantiation against the model
// ---------------------------------------------------------------------------
/// The child path of `name` under `dir`.
pub fn join_path(dir: &str, name: &str) -> (r: String)
    ensures
        r@ == spec_join_path(dir@, name@),
{
    let mut out = to_owned_str(dir);
    push_str(&mut out, "/");
    push_str(&mut out, name);
    out
}

impl File {
    /// The file name this node materializes as when spawned under `name`.
    pub fn target_file_name(&self, name: &str) -> (r: String)
        ensures
            r@ == spec_file_target(self@, name@),
    {
        if self.extension().as_str().unicode_len() == 0 {
            to_owned_str(name)
        } else {
            let mut out = to_owned_str(name);
            push_str(&mut out, ".");
            push_str(&mut out, self.extension().as_str());
            out
        }
    }

    /// The bytes written for this file: its body dedented, then unescaped.
    pub fn rendered_content(&self) -> (r: String)
        ensures
            r@ == spec_rendered_content(self@),
    {
        let dedented = remove_indentation(self.content().as_str());
        unescape_xml(dedented.as_str())
    }

    /// Instantiate this file under `dir` with output name `name`; see
    /// `spec_inst_file`.
    pub fn instantiate_with_name(&self, fs: &mut FsModel, dir: &str, name: &str) -> (ops: Vec<
        FsOp,
    >)
        ensures
            final(fs)@ == spec_inst_file(self@, dir@, name@, old(fs)@).0,
            ops.deep_view() == spec_inst_file(self@, dir@, name@, old(fs)@).1,
    {
        let target = self.target_file_name(name);
        let path = join_path(dir, target.as_str());
        let mut ops: Vec<FsOp> = Vec::new();
        if fs.contains_path(path.as_str()) {
            ops.push(FsOp::SkippedExisting(path));
            proof {
                assert(ops.deep_view() =~= spec_inst_file(self@, dir@, name@, old(fs)@).1);
            }
            return ops;
        }
        fs.add_path(path.as_str());
        let content = self.rendered_content();
        ops.push(FsOp::WroteFile(path, content));
        if self.command().as_str().unicode_len() > 0 {
            ops.push(FsOp::RanCommand(to_owned_str(self.command().as_str()), to_owned_str(dir)));
        }
        proof {
            assert(ops.deep_view() =~= spec_inst_file(self@, dir@, name@, old(fs)@).1);
        }
        ops
    }

    /// Instantiate this file under its declared name.
    pub fn instantiate(&self, fs: &mut FsModel, dir: &str) -> (ops: Vec<FsOp>)
        ensures
            final(fs)@ == spec_inst_file(self@, dir@, self@.name, old(fs)@).0,
            ops.deep_view() == spec_inst_file(self@, dir@, self@.name, old(fs)@).1,
    {
        let name = to_owned_str(self.name().as_str());
        self.instantiate_with_name(fs, dir, name.as_str())
    }
}

impl Directory {
    /// Instantiate this directory under `dir` with output name `name`; see
    /// `spec_inst_dir`.
    #[verifier::rlimit(100)]
    pub fn instantiate_with_name(&self, fs: &mut FsModel, dir: &str, name: &str) -> (ops: Vec<
        FsOp,
    >)
        ensures
            final(fs)@ == spec_inst_dir(self@, dir@, name@, old(fs)@).0,
            ops.deep_view() == spec_inst_dir(self@, dir@, name@, old(fs)@).1,
        decreases *self, 1int,
    {
        let ghost dv = dir_view(self);
        let path = join_path(dir, name);
        let mut ops: Vec<FsOp> = Vec::new();
        if fs.contains_path(path.as_str()) {
            ops.push(FsOp::SkippedExisting(to_owned_str(path.as_str())));
            proof {
                assert(ops.deep_view() =~= spec_inst_dir(dv, dir@, name@, old(fs)@).1);
            }
            return ops;
        }
        fs.add_path(path.as_str());
        ops.push(FsOp::CreatedDir(to_owned_str(path.as_str())));
        if self.in_command().as_str().unicode_len() > 0 {
            ops.push(
                FsOp::RanCommand(
                    to_owned_str(self.in_command().as_str()),
                    to_owned_str(path.as_str()),
                ),
            );
        }
        if self.out_command().as_str().unicode_len() > 0 {
            ops.push(
                FsOp::RanCommand(to_owned_str(self.out_command().as_str()), to_owned_str(dir)),
            );
        }
        let ghost cmd_ops = (if dv.in_command.len() > 0 {
            seq![FsOpV::RanCommand(dv.in_command, path@)]
        } else {
            Seq::<FsOpV>::empty()
        }) + (if dv.out_command.len() > 0 {
            seq![FsOpV::RanCommand(dv.out_command, dir@)]
        } else {
            Seq::<FsOpV>::empty()
        });
        proof {
            assert(ops.deep_view() =~= seq![FsOpV::CreatedDir(path@)] + cmd_ops);
        }
        let ghost fs1 = fs@;
        let files = self.files();
        let ghost files_r = spec_inst_files(dv.files, path@, fs1, 0);
        let mut k: usize = 0;
        while k < files.len()
            invariant
                0 <= k <= files@.len(),
                dv == dir_view(self),
                files@.len() == dv.files.len(),
                forall|i: int| 0 <= i < files@.len() ==> files@[i]@ == dv.files[i],
                files_r == spec_inst_files(dv.files, path@, fs1, 0),
                spec_inst_files(dv.files, path@, fs@, k as int).0 == files_r.0,
                ops.deep_view() + spec_inst_files(dv.files, path@, fs@, k as int).1
                    == seq![FsOpV::CreatedDir(path@)] + cmd_ops + files_r.1,
            decreases files@.len() - k,
        {
            let ghost fs_before = fs@;
            let child: &File = &files[k];
            let mut child_ops = child.instantiate(fs, path.as_str());
            let ghost ops0 = ops.deep_view();
            let ghost cov = child_ops.deep_view();
            let ghost head = spec_inst_file(
                dv.files[k as int],
                path@,
                dv.files[k as int].name,
                fs_before,
            );
            ops.append(&mut child_ops);
            proof {
                assert(cov == head.1);
                assert(ops.deep_view() =~= ops0 + cov);
            }
            k = k + 1;
        }
        proof {
            assert(spec_inst_files(dv.files, path@, fs@, files@.len() as int).1
                =~= Seq::<FsOpV>::empty());
            assert(ops.deep_view() =~= seq![FsOpV::CreatedDir(path@)] + cmd_ops + files_r.1);
        }
        let dirs = self.directories();
        let ghost fs2 = fs@;
        let ghost dirs_r = spec_inst_dirs(dv.dirs, path@, fs2, 0);
        let mut k: usize = 0;
        while k < dirs.len()
            invariant
                0 <= k <= dirs@.len(),
                dv == dir_view(self),
                dirs@.len() == dv.dirs.len(),
                forall|i: int| 0 <= i < dirs@.len() ==> dirs@[i]@ == dv.dirs[i],
                dirs_r == spec_inst_dirs(dv.dirs, path@, fs2, 0),
                spec_inst_dirs(dv.dirs, path@, fs@, k as int).0 == dirs_r.0,
                ops.deep_view() + spec_inst_dirs(dv.dirs, path@, fs@, k as int).1
                    == seq![FsOpV::CreatedDir(path@)] + cmd_ops + files_r.1 + dirs_r.1,
            decreases dirs@.len() - k,
        {
            proof {
                self.lemma_child_decreases(k as int);
            }
            let ghost fs_before = fs@;
            let child: &Directory = &dirs[k];
            let mut child_ops = child.instantiate(fs, path.as_str());
            let ghost ops0 = ops.deep_view();
            let ghost cov = child_ops.deep_view();
            let ghost head = spec_inst_dir(
                dv.dirs[k as int],
                path@,
                dv.dirs[k as int].name,
                fs_before,
            );
            ops.append(&mut child_ops);
            proof {
                assert(cov == head.1);
                assert(ops.deep_view() =~= ops0 + cov);
            }
            k = k + 1;
        }
        proof {
            assert(spec_inst_dirs(dv.dirs, path@, fs@, dirs@.len() as int).1
                =~= Seq::<FsOpV>::empty());
            assert(ops.deep_view() =~= spec_inst_dir(dv, dir@, name@, old(fs)@).1);
        }
        ops
    }

    /// Instantiate this directory under its declared name.
    pub fn instantiate(&self, fs: &mut FsModel, dir: &str) -> (ops: Vec<FsOp>)
        ensures
            final(fs)@ == spec_inst_dir(self@, dir@, self@.name, old(fs)@).0,
            ops.deep_view() == spec_inst_dir(self@, dir@, self@.name, old(fs)@).1,
        decreases *self, 2int,
    {
        let name = to_owned_str(self.name().as_str());
        self.instantiate_with_name(fs, dir, name.as_str())
    }
}

impl TxmlStructure {
    /// Instantiate every top-level file, then every top-level directory,
    /// under `dir`, each with its declared name; see `spec_inst_struct`.
    pub fn instantiate(&self, fs: &mut FsModel, dir: &str) -> (ops: Vec<FsOp>)
        ensures
            final(fs)@ == spec_inst_struct(self@, dir@, old(fs)@).0,
            ops.deep_view() == spec_inst_struct(self@, dir@, old(fs)@).1,
    {
        let ghost sv = self@;
        let ghost fs0 = fs@;
        let mut ops: Vec<FsOp> = Vec::new();
        let files = self.files();
        let ghost files_r = spec_inst_files(sv.files, dir@, fs0, 0);
        proof {
            assert(ops.deep_view() + spec_inst_files(sv.files, dir@, fs@, 0).1 =~= files_r.1);
        }
        let mut k: usize = 0;
        while k < files.len()
            invariant
                0 <= k <= files@.len(),
                sv == self@,
                files@.len() == sv.files.len(),
                forall|i: int| 0 <= i < files@.len() ==> files@[i]@ == sv.files[i],
                files_r == spec_inst_files(sv.files, dir@, fs0, 0),
                spec_inst_files(sv.files, dir@, fs@, k as int).0 == files_r.0,
                ops.deep_view() + spec_inst_files(sv.files, dir@, fs@, k as int).1 == files_r.1,
            decreases files@.len() - k,
        {
            let ghost fs_before = fs@;
            let child: &File = &files[k];
            let mut child_ops = child.instantiate(fs, dir);
            let ghost ops0 = ops.deep_view();
            let ghost cov = child_ops.deep_view();
            ops.append(&mut child_ops);
            proof {
                assert(cov == spec_inst_file(sv.files[k as int], dir@, sv.files[k as int].name,
                    fs_before).1);
                assert(ops.deep_view() =~= ops0 + cov);
            }
            k = k + 1;
        }
        proof {
            assert(spec_inst_files(sv.files, dir@, fs@, files@.len() as int).1
                =~= Seq::<FsOpV>::empty());
            assert(ops.deep_view() =~= files_r.1);
        }
        let dirs = self.directories();
        let ghost fs2 = fs@;
        let ghost dirs_r = spec_inst_dirs(sv.dirs, dir@, fs2, 0);
        let mut k: usize = 0;
        while k < dirs.len()
            invariant
                0 <= k <= dirs@.len(),
                sv == self@,
                dirs@.len() == sv.dirs.len(),
                forall|i: int| 0 <= i < dirs@.len() ==> dirs@[i]@ == sv.dirs[i],
                dirs_r == spec_inst_dirs(sv.dirs, dir@, fs2, 0),
                files_r == spec_inst_files(sv.files, dir@, fs0, 0),
                spec_inst_dirs(sv.dirs, dir@, fs@, k as int).0 == dirs_r.0,
                ops.deep_view() + spec_inst_dirs(sv.dirs, dir@, fs@, k as int).1 == files_r.1
                    + dirs_r.1,
            decreases dirs@.len() - k,
        {
            let ghost fs_before = fs@;
            let child: &Directory = &dirs[k];
            let mut child_ops = child.instantiate(fs, dir);
            let ghost ops0 = ops.deep_view();
            let ghost cov = child_ops.deep_view();
            ops.append(&mut child_ops);
            proof {
                assert(cov == spec_inst_dir(sv.dirs[k as int], dir@, sv.dirs[k as int].name,
                    fs_before).1);
                assert(ops.deep_view() =~= ops0 + cov);
            }
            k = k + 1;
        }
        proof {
            assert(spec_inst_dirs(sv.dirs, dir@, fs@, dirs@.len() as int).1
                =~= Seq::<FsOpV>::empty());
            assert(ops.deep_view() =~= files_r.1 + dirs_r.1);
        }
        ops
    }

    /// Instantiate the structure under `dir`, renaming its single direct
    /// child to `name` when the rename rule applies; see
    /// `spec_inst_struct_with_name`.
    pub fn instantiate_with_name(&self, fs: &mut FsModel, dir: &str, name: &str) -> (ops: Vec<
        FsOp,
    >)
        ensures
            final(fs)@ == spec_inst_struct_with_name(self@, dir@, name@, old(fs)@).0,
            ops.deep_view() == spec_inst_struct_with_name(self@, dir@, name@, old(fs)@).1,
    {
        let nf = self.files().len();
        let nd = self.directories().len();
        let many = nf > 1 || nd > 1 || (nf == 1 && nd == 1);
        if many || !self.renamable() {
            return self.instantiate(fs, dir);
        }
        if nf == 1 {
            let child: &File = &self.files()[0];
            return child.instantiate_with_name(fs, dir, name);
        }
        if nd == 1 {
            let child: &Directory = &self.directories()[0];
            return child.instantiate_with_name(fs, dir, name);
        }
        let ops: Vec<FsOp> = Vec::new();
        proof {
            assert(ops.deep_view() =~= Seq::<FsOpV>::empty());
        }
        ops
    }
}

// ---------------------------------------------------------------------------
// Stated rules
// ---------------------------------------------------------------------------
/// Existing-path skip rule for a directory: instantiating where the target
/// path already exists changes nothing and performs no effect besides
/// noting the skip — no creation, no hooks, no descent.
pub proof fn lemma_existing_dir_skipped(d: DirV, dir: Seq<char>, name: Seq<char>, fs: Seq<Seq<char>>)
    requires
        fs_has(fs, spec_join_path(dir, name)),
    ensures
        spec_inst_dir(d, dir, name, fs).0 == fs,
        spec_inst_dir(d, dir, name, fs).1 == seq![
            FsOpV::SkippedExisting(spec_join_path(dir, name)),
        ],
{
}

/// Existing-path skip rule for a file: instantiating where the target path
/// already exists changes nothing — no write, no hook.
pub proof fn lemma_existing_file_skipped(f: FileV, dir: Seq<char>, name: Seq<char>, fs: Seq<Seq<char>>)
    requires
        fs_has(fs, spec_join_path(dir, spec_file_target(f, name))),
    ensures
        spec_inst_file(f, dir, name, fs).0 == fs,
        spec_inst_file(f, dir, name, fs).1 == seq![
            FsOpV::SkippedExisting(spec_join_path(dir, spec_file_target(f, name))),
        ],
{
}

/// Single-child rename rule: a renamable structure holding exactly one
/// top-level file is instantiated as that file under the caller's output
/// name, whatever the file's declared name; a structure with two or more
/// direct children ignores the output name and instantiates every node
/// under its declared name.
pub proof fn lemma_rename_rule(sv: StructV, dir: Seq<char>, name: Seq<char>, fs: Seq<Seq<char>>)
    ensures
        (sv.renamable && sv.files.len() == 1 && sv.dirs.len() == 0)
            ==> spec_inst_struct_with_name(sv, dir, name, fs) == spec_inst_file(
            sv.files[0],
            dir,
            name,
            fs,
        ),
        (sv.renamable && sv.dirs.len() == 1 && sv.files.len() == 0)
            ==> spec_inst_struct_with_name(sv, dir, name, fs) == spec_inst_dir(
            sv.dirs[0],
            dir,
            name,
            fs,
        ),
        sv.files.len() + sv.dirs.len() > 1 ==> spec_inst_struct_with_name(sv, dir, name, fs)
            == spec_inst_struct(sv, dir, fs),
{
}

} // verus!
