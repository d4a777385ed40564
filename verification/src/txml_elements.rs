//! The tree model: `Directory` and `File` nodes, the transient `Variable`
//! pair, and the `TemplateMetadata` record, together with their attribute
//! handling and their rendering back into markup.

use vstd::prelude::*;

use crate::normalize::escape_xml_seq;
use crate::text::push_str;
use crate::text::str_eq;
use crate::text::to_owned_str;

verus! {

broadcast use vstd::std_specs::vec::group_vec_axioms;
// ---------------------------------------------------------------------------
// Spec views
// ---------------------------------------------------------------------------
pub ghost struct FileV {
    pub name: Seq<char>,
    pub extension: Seq<char>,
    pub command: Seq<char>,
    pub content: Seq<char>,
}

pub ghost struct DirV {
    pub name: Seq<char>,
    pub in_command: Seq<char>,
    pub out_command: Seq<char>,
    pub files: Seq<FileV>,
    pub dirs: Seq<DirV>,
}

pub ghost struct VarV {
    pub name: Seq<char>,
    pub value: Seq<char>,
}

pub ghost struct MetaV {
    pub author: Seq<char>,
    pub date: Seq<char>,
    pub version: Seq<char>,
    pub description: Seq<char>,
}

// ---------------------------------------------------------------------------
// Directory
// ---------------------------------------------------------------------------
/// A directory node: a name, two hook command strings, and ordered child
/// files and directories.
pub struct Directory {
    name: String,
    out_command: String,
    in_command: String,
    files: Vec<File>,
    directories: Vec<Directory>,
}

/// The view of a directory, its subtree included.
pub closed spec fn dir_view(d: &Directory) -> DirV
    decreases *d, 0int,
    via dir_view_decreases
{
    DirV {
        name: d.name@,
        in_command: d.in_command@,
        out_command: d.out_command@,
        files: Seq::new(d.files@.len(), |i: int| d.files@[i]@),
        dirs: dirs_view(d.directories@, 0),
    }
}

/// The views of the directories of `ds` from index `i` on.
pub closed spec fn dirs_view(ds: Seq<Directory>, i: int) -> Seq<DirV>
    decreases ds, ds.len() - i,
{
    if i < 0 || i >= ds.len() {
        seq![]
    } else {
        seq![dir_view(&ds[i])] + dirs_view(ds, i + 1)
    }
}

#[via_fn]
proof fn dir_view_decreases(d: &Directory) {
    assert(decreases_to!(*d => d.directories));
    assert(decreases_to!(d.directories => d.directories@));
}

/// `dirs_view` maps `dir_view` over the elements.
pub proof fn lemma_dirs_view(ds: Seq<Directory>, i: int)
    requires
        0 <= i <= ds.len(),
    ensures
        dirs_view(ds, i).len() == ds.len() - i,
        forall|k: int|
            0 <= k < ds.len() - i ==> #[trigger] dirs_view(ds, i)[k] == dir_view(&ds[i + k]),
    decreases ds.len() - i,
{
    if i < ds.len() {
        lemma_dirs_view(ds, i + 1);
    }
}

impl View for Directory {
    type V = DirV;

    open spec fn view(&self) -> DirV {
        dir_view(self)
    }
}

impl Directory {
    /// An empty directory node with empty name and commands.
    pub fn new() -> (d: Directory)
        ensures
            d@.name == Seq::<char>::empty(),
            d@.in_command == Seq::<char>::empty(),
            d@.out_command == Seq::<char>::empty(),
            d@.files == Seq::<FileV>::empty(),
            d@.dirs == Seq::<DirV>::empty(),
    {
        let d = Directory {
            name: String::new(),
            out_command: String::new(),
            in_command: String::new(),
            files: Vec::new(),
            directories: Vec::new(),
        };
        proof {
            lemma_dirs_view(d.directories@, 0);
            assert(d@.files =~= Seq::<FileV>::empty());
            assert(d@.dirs =~= Seq::<DirV>::empty());
        }
        d
    }

    /// Append a child file.
    pub fn add_file(&mut self, file: File)
        ensures
            final(self)@ == (DirV { files: old(self)@.files.push(file@), ..old(self)@ }),
    {
        self.files.push(file);
        proof {
            assert(self@.files =~= old(self)@.files.push(file@));
            assert(self@.dirs == old(self)@.dirs);
        }
    }

    /// Append a child directory.
    pub fn add_directory(&mut self, directory: Directory)
        ensures
            final(self)@ == (DirV { dirs: old(self)@.dirs.push(directory@), ..old(self)@ }),
    {
        self.directories.push(directory);
        proof {
            lemma_dirs_view(old(self).directories@, 0);
            lemma_dirs_view(self.directories@, 0);
            assert(self@.files =~= old(self)@.files);
            assert(self@.dirs =~= old(self)@.dirs.push(directory@));
        }
    }

    /// Set the field that attribute `key` names (`name`, `in_command` or
    /// `out_command`); any other key is ignored.
    pub fn process_attribute(&mut self, key: &str, value: &str)
        ensures
            final(self)@ == spec_dir_attr(old(self)@, key@, value@),
    {
        if str_eq(key, "name") {
            self.name = to_owned_str(value);
        } else if str_eq(key, "in_command") {
            self.in_command = to_owned_str(value);
        } else if str_eq(key, "out_command") {
            self.out_command = to_owned_str(value);
        }
        proof {
            assert(self@.files =~= old(self)@.files);
            assert(self@.dirs == old(self)@.dirs);
        }
    }

    /// The declared name.
    pub fn name(&self) -> (r: &String)
        ensures
            r@ == self@.name,
    {
        &self.name
    }

    /// The hook run inside the directory once created.
    pub fn in_command(&self) -> (r: &String)
        ensures
            r@ == self@.in_command,
    {
        &self.in_command
    }

    /// The hook run in the parent of the directory once created.
    pub fn out_command(&self) -> (r: &String)
        ensures
            r@ == self@.out_command,
    {
        &self.out_command
    }

    /// The child files, in insertion order.
    pub fn files(&self) -> (r: &Vec<File>)
        ensures
            r@.len() == self@.files.len(),
            forall|i: int| 0 <= i < r@.len() ==> r@[i]@ == self@.files[i],
    {
        &self.files
    }

    /// The child directories, in insertion order.
    pub fn directories(&self) -> (r: &Vec<Directory>)
        ensures
            r@ == self.dirs_vec(),
            r@.len() == self@.dirs.len(),
            forall|i: int| 0 <= i < r@.len() ==> r@[i]@ == self@.dirs[i],
    {
        proof {
            lemma_dirs_view(self.directories@, 0);
        }
        &self.directories
    }

    /// The child directory nodes themselves, for structural reasoning.
    pub closed spec fn dirs_vec(&self) -> Seq<Directory> {
        self.directories@
    }

    /// A child directory is structurally smaller than its parent, so
    /// recursion over the tree terminates.
    pub proof fn lemma_child_decreases(&self, i: int)
        requires
            0 <= i < self.dirs_vec().len(),
        ensures
            decreases_to!(*self => self.dirs_vec()[i]),
    {
        assert(decreases_to!(*self => self.directories));
        assert(decreases_to!(self.directories => self.directories@));
        assert(decreases_to!(self.directories@ => self.directories@[i]));
    }
}

/// Effect of one attribute on a directory's view.
pub open spec fn spec_dir_attr(d: DirV, key: Seq<char>, value: Seq<char>) -> DirV {
    if key == "name"@ {
        DirV { name: value, ..d }
    } else if key == "in_command"@ {
        DirV { in_command: value, ..d }
    } else if key == "out_command"@ {
        DirV { out_command: value, ..d }
    } else {
        d
    }
}

/// Effect of an attribute list on a directory's view, first to last.
pub open spec fn spec_dir_attrs(d: DirV, attrs: Seq<(Seq<char>, Seq<char>)>) -> DirV
    decreases attrs.len(),
{
    if attrs.len() == 0 {
        d
    } else {
        spec_dir_attrs(spec_dir_attr(d, attrs[0].0, attrs[0].1), attrs.skip(1))
    }
}

// ---------------------------------------------------------------------------
// File
// ---------------------------------------------------------------------------
/// A file node: a name, an optional extension, a hook command string, and
/// the captured raw body text.
pub struct File {
    name: String,
    extension: String,
    command: String,
    content: String,
}

impl View for File {
    type V = FileV;

    closed spec fn view(&self) -> FileV {
        FileV {
            name: self.name@,
            extension: self.extension@,
            command: self.command@,
            content: self.content@,
        }
    }
}

impl File {
    /// An empty file node.
    pub fn new() -> (f: File)
        ensures
            f@.name == Seq::<char>::empty(),
            f@.extension == Seq::<char>::empty(),
            f@.command == Seq::<char>::empty(),
            f@.content == Seq::<char>::empty(),
    {
        File {
            name: String::new(),
            extension: String::new(),
            command: String::new(),
            content: String::new(),
        }
    }

    /// Replace the captured body text.
    pub fn set_text(&mut self, text: String)
        ensures
            final(self)@ == (FileV { content: text@, ..old(self)@ }),
    {
        self.content = text;
    }

    /// Set the field that attribute `key` names (`name`, `extension` or
    /// `command`); any other key is ignored.
    pub fn process_attribute(&mut self, key: &str, value: &str)
        ensures
            final(self)@ == spec_file_attr(old(self)@, key@, value@),
    {
        if str_eq(key, "name") {
            self.name = to_owned_str(value);
        } else if str_eq(key, "extension") {
            self.extension = to_owned_str(value);
        } else if str_eq(key, "command") {
            self.command = to_owned_str(value);
        }
    }

    /// The declared name.
    pub fn name(&self) -> (r: &String)
        ensures
            r@ == self@.name,
    {
        &self.name
    }

    /// The declared extension; empty when the file name has none.
    pub fn extension(&self) -> (r: &String)
        ensures
            r@ == self@.extension,
    {
        &self.extension
    }

    /// The hook run after the file is written.
    pub fn command(&self) -> (r: &String)
        ensures
            r@ == self@.command,
    {
        &self.command
    }

    /// The captured raw body text.
    pub fn content(&self) -> (r: &String)
        ensures
            r@ == self@.content,
    {
        &self.content
    }
}

/// Effect of one attribute on a file's view.
pub open spec fn spec_file_attr(f: FileV, key: Seq<char>, value: Seq<char>) -> FileV {
    if key == "name"@ {
        FileV { name: value, ..f }
    } else if key == "extension"@ {
        FileV { extension: value, ..f }
    } else if key == "command"@ {
        FileV { command: value, ..f }
    } else {
        f
    }
}

/// Effect of an attribute list on a file's view, first to last.
pub open spec fn spec_file_attrs(f: FileV, attrs: Seq<(Seq<char>, Seq<char>)>) -> FileV
    decreases attrs.len(),
{
    if attrs.len() == 0 {
        f
    } else {
        spec_file_attrs(spec_file_attr(f, attrs[0].0, attrs[0].1), attrs.skip(1))
    }
}

// ---------------------------------------------------------------------------
// Variable
// ---------------------------------------------------------------------------
/// A variable declaration: a transient name/value pair collected before
/// substitution; it is not retained in the built tree.
pub struct Variable {
    name: String,
    value: String,
}

impl View for Variable {
    type V = VarV;

    closed spec fn view(&self) -> VarV {
        VarV { name: self.name@, value: self.value@ }
    }
}

impl DeepView for Variable {
    type V = VarV;

    open spec fn deep_view(&self) -> VarV {
        self.view()
    }
}

impl Variable {
    /// A variable with empty name and value.
    pub fn new() -> (v: Variable)
        ensures
            v@.name == Seq::<char>::empty(),
            v@.value == Seq::<char>::empty(),
    {
        Variable { name: String::new(), value: String::new() }
    }

    /// The declared name.
    pub fn get_name(&self) -> (r: &str)
        ensures
            r@ == self@.name,
    {
        self.name.as_str()
    }

    /// The declared value; empty when the value is to be asked for.
    pub fn get_value(&self) -> (r: &str)
        ensures
            r@ == self@.value,
    {
        self.value.as_str()
    }

    /// Set the field that attribute `key` names (`name` or `value`); any
    /// other key is ignored.
    pub fn process_attribute(&mut self, key: &str, value: &str)
        ensures
            final(self)@ == spec_var_attr(old(self)@, key@, value@),
    {
        if str_eq(key, "name") {
            self.name = to_owned_str(value);
        } else if str_eq(key, "value") {
            self.value = to_owned_str(value);
        }
    }
}

/// Effect of one attribute on a variable's view.
pub open spec fn spec_var_attr(v: VarV, key: Seq<char>, value: Seq<char>) -> VarV {
    if key == "name"@ {
        VarV { name: value, ..v }
    } else if key == "value"@ {
        VarV { value: value, ..v }
    } else {
        v
    }
}

/// Effect of an attribute list on a variable's view, first to last.
pub open spec fn spec_var_attrs(v: VarV, attrs: Seq<(Seq<char>, Seq<char>)>) -> VarV
    decreases attrs.len(),
{
    if attrs.len() == 0 {
        v
    } else {
        spec_var_attrs(spec_var_attr(v, attrs[0].0, attrs[0].1), attrs.skip(1))
    }
}

// ---------------------------------------------------------------------------
// TemplateMetadata
// ---------------------------------------------------------------------------
/// The metadata record attached once to a structure: free-form strings, no
/// validation.
pub struct TemplateMetadata {
    pub author: String,
    pub date: String,
    pub version: String,
    pub description: String,
}

impl View for TemplateMetadata {
    type V = MetaV;

    open spec fn view(&self) -> MetaV {
        MetaV {
            author: self.author@,
            date: self.date@,
            version: self.version@,
            description: self.description@,
        }
    }
}

impl TemplateMetadata {
    /// A record with all fields empty.
    pub fn new() -> (m: TemplateMetadata)
        ensures
            m@.author == Seq::<char>::empty(),
            m@.date == Seq::<char>::empty(),
            m@.version == Seq::<char>::empty(),
            m@.description == Seq::<char>::empty(),
    {
        TemplateMetadata {
            author: String::new(),
            date: String::new(),
            version: String::new(),
            description: String::new(),
        }
    }

    /// Set the field that attribute `key` names (`author`, `date`,
    /// `version` or `description`); any other key is ignored.
    pub fn process_attribute(&mut self, key: &str, value: &str)
        ensures
            final(self)@ == spec_meta_attr(old(self)@, key@, value@),
    {
        if str_eq(key, "author") {
            self.author = to_owned_str(value);
        } else if str_eq(key, "date") {
            self.date = to_owned_str(value);
        } else if str_eq(key, "version") {
            self.version = to_owned_str(value);
        } else if str_eq(key, "description") {
            self.description = to_owned_str(value);
        }
    }
}

/// Effect of one attribute on the metadata record.
pub open spec fn spec_meta_attr(m: MetaV, key: Seq<char>, value: Seq<char>) -> MetaV {
    if key == "author"@ {
        MetaV { author: value, ..m }
    } else if key == "date"@ {
        MetaV { date: value, ..m }
    } else if key == "version"@ {
        MetaV { version: value, ..m }
    } else if key == "description"@ {
        MetaV { description: value, ..m }
    } else {
        m
    }
}

/// Effect of an attribute list on the metadata record, first to last; a
/// repeated attribute's last occurrence wins.
pub open spec fn spec_meta_attrs(m: MetaV, attrs: Seq<(Seq<char>, Seq<char>)>) -> MetaV
    decreases attrs.len(),
{
    if attrs.len() == 0 {
        m
    } else {
        spec_meta_attrs(spec_meta_attr(m, attrs[0].0, attrs[0].1), attrs.skip(1))
    }
}

// ---------------------------------------------------------------------------
// Serialization to markup
// ---------------------------------------------------------------------------
/// The markup of a file element: attributes only when non-empty, the body
/// escaped between the tags.
pub open spec fn ser_file(f: FileV) -> Seq<char> {
    "<File name=\""@ + f.name + "\""@ + (if f.extension.len() > 0 {
        " extension=\""@ + f.extension + "\""@
    } else {
        Seq::<char>::empty()
    }) + (if f.command.len() > 0 {
        " command=\""@ + f.command + "\""@
    } else {
        Seq::<char>::empty()
    }) + ">\n"@ + escape_xml_seq(f.content) + "\n</File>\n"@
}

/// The opening tag of a directory element, attributes only when non-empty.
pub open spec fn ser_dir_header(d: DirV) -> Seq<char> {
    "<Directory name=\""@ + d.name + "\""@ + (if d.in_command.len() > 0 {
        " in_command=\""@ + d.in_command + "\""@
    } else {
        Seq::<char>::empty()
    }) + (if d.out_command.len() > 0 {
        " out_command=\""@ + d.out_command + "\""@
    } else {
        Seq::<char>::empty()
    }) + ">\n"@
}

/// The concatenated markup of the files of `fs` from index `i` on.
pub open spec fn ser_files(fs: Seq<FileV>, i: int) -> Seq<char>
    decreases fs.len() - i,
{
    if i < 0 || i >= fs.len() {
        Seq::<char>::empty()
    } else {
        ser_file(fs[i]) + ser_files(fs, i + 1)
    }
}

/// The markup of a directory element: header, child files, child
/// directories, closing tag.
pub open spec fn ser_dir(d: DirV) -> Seq<char>
    decreases d, 1int,
{
    ser_dir_header(d) + ser_files(d.files, 0) + ser_dirs(d.dirs, 0) + "</Directory>\n"@
}

/// The concatenated markup of the directories of `ds` from index `i` on.
pub open spec fn ser_dirs(ds: Seq<DirV>, i: int) -> Seq<char>
    decreases ds, ds.len() - i,
{
    if i < 0 || i >= ds.len() {
        Seq::<char>::empty()
    } else {
        ser_dir(ds[i]) + ser_dirs(ds, i + 1)
    }
}

/// The markup of the metadata element, every attribute always present.
pub open spec fn ser_meta(m: MetaV) -> Seq<char> {
    "<Metadata author=\""@ + m.author + "\" date=\""@ + m.date + "\" version=\""@ + m.version
        + "\" description=\""@ + m.description + "\"/>\n            "@
}

impl File {
    /// The markup of this file element; see `ser_file`.
    pub fn to_markup(&self) -> (r: String)
        ensures
            r@ == ser_file(self@),
    {
        let mut out = to_owned_str("<File name=\"");
        push_str(&mut out, self.name.as_str());
        push_str(&mut out, "\"");
        if self.extension.as_str().unicode_len() > 0 {
            push_str(&mut out, " extension=\"");
            push_str(&mut out, self.extension.as_str());
            push_str(&mut out, "\"");
        }
        if self.command.as_str().unicode_len() > 0 {
            push_str(&mut out, " command=\"");
            push_str(&mut out, self.command.as_str());
            push_str(&mut out, "\"");
        }
        push_str(&mut out, ">\n");
        let escaped = crate::normalize::escape_xml(self.content.as_str());
        push_str(&mut out, escaped.as_str());
        push_str(&mut out, "\n</File>\n");
        proof {
            assert(out@ =~= ser_file(self@));
        }
        out
    }

    /// The markup of this file element, consuming it, as the original
    /// rendering entry point does.
    pub fn into_txml_element(self) -> (r: String)
        ensures
            r@ == ser_file(self@),
    {
        self.to_markup()
    }
}

impl Directory {
    /// Append the markup of this directory element to `out`; see `ser_dir`.
    #[verifier::rlimit(100)]
    pub fn write_markup(&self, out: &mut String)
        ensures
            final(out)@ == old(out)@ + ser_dir(self@),
        decreases *self,
    {
        let ghost dv = dir_view(self);
        let ghost base = out@;
        push_str(out, "<Directory name=\"");
        push_str(out, self.name.as_str());
        push_str(out, "\"");
        if self.in_command.as_str().unicode_len() > 0 {
            push_str(out, " in_command=\"");
            push_str(out, self.in_command.as_str());
            push_str(out, "\"");
        }
        if self.out_command.as_str().unicode_len() > 0 {
            push_str(out, " out_command=\"");
            push_str(out, self.out_command.as_str());
            push_str(out, "\"");
        }
        push_str(out, ">\n");
        proof {
            assert(out@ =~= base + ser_dir_header(dv));
        }
        let mut k: usize = 0;
        while k < self.files.len()
            invariant
                0 <= k <= self.files@.len(),
                dv == dir_view(self),
                dv.files.len() == self.files@.len(),
                out@ + ser_files(dv.files, k as int) == base + ser_dir_header(dv) + ser_files(
                    dv.files,
                    0,
                ),
            decreases self.files@.len() - k,
        {
            let m = self.files[k].to_markup();
            push_str(out, m.as_str());
            proof {
                assert(dv.files[k as int] == self.files@[k as int]@);
            }
            k = k + 1;
        }
        proof {
            assert(ser_files(dv.files, dv.files.len() as int) =~= Seq::<char>::empty());
            assert(out@ =~= base + ser_dir_header(dv) + ser_files(dv.files, 0));
            lemma_dirs_view(self.directories@, 0);
        }
        let mut k: usize = 0;
        while k < self.directories.len()
            invariant
                0 <= k <= self.directories@.len(),
                dv == dir_view(self),
                dv.dirs.len() == self.directories@.len(),
                out@ + ser_dirs(dv.dirs, k as int) == base + ser_dir_header(dv) + ser_files(
                    dv.files,
                    0,
                ) + ser_dirs(dv.dirs, 0),
            decreases self.directories@.len() - k,
        {
            proof {
                lemma_dirs_view(self.directories@, 0);
                assert(decreases_to!(*self => self.directories));
                assert(decreases_to!(self.directories => self.directories@));
                assert(decreases_to!(self.directories@ => self.directories@[k as int]));
            }
            let child: &Directory = &self.directories[k];
            child.write_markup(out);
            proof {
                assert(dv.dirs[k as int] == dir_view(&self.directories@[k as int]));
            }
            k = k + 1;
        }
        push_str(out, "</Directory>\n");
        proof {
            assert(ser_dirs(dv.dirs, dv.dirs.len() as int) =~= Seq::<char>::empty());
            assert(out@ =~= base + ser_dir(dv));
        }
    }

    /// The markup of this directory element, consuming it, as the original
    /// rendering entry point does.
    pub fn into_txml_element(self) -> (r: String)
        ensures
            r@ == ser_dir(self@),
    {
        let mut out = String::new();
        self.write_markup(&mut out);
        proof {
            assert(out@ =~= ser_dir(self@));
        }
        out
    }
}

impl TemplateMetadata {
    /// The markup of the metadata element; see `ser_meta`.
    pub fn to_markup(&self) -> (r: String)
        ensures
            r@ == ser_meta(self@),
    {
        let mut out = to_owned_str("<Metadata author=\"");
        push_str(&mut out, self.author.as_str());
        push_str(&mut out, "\" date=\"");
        push_str(&mut out, self.date.as_str());
        push_str(&mut out, "\" version=\"");
        push_str(&mut out, self.version.as_str());
        push_str(&mut out, "\" description=\"");
        push_str(&mut out, self.description.as_str());
        push_str(&mut out, "\"/>\n            ");
        proof {
            assert(out@ =~= ser_meta(self@));
        }
        out
    }

    /// The markup of the metadata element, consuming it.
    pub fn into_txml_element(self) -> (r: String)
        ensures
            r@ == ser_meta(self@),
    {
        self.to_markup()
    }
}

} // verus!
