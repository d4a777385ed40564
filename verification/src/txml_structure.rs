//! The root aggregate `TxmlStructure` and the two-pass parser that builds it
//! from markup text: variable discovery and textual substitution first, then
//! a stack-driven fold of the event stream into the tree.

use vstd::prelude::*;
use vstd::string::StrSliceExecFns;

use crate::reader::spec_read_event;
use crate::reader::ElementState;
use crate::reader::EventV;
use crate::reader::StateV;
use crate::reader::TxmlEvent;
use crate::reader::TxmlReader;
use crate::reader::TxmlReaderError;
use crate::text::blank_str;
use crate::text::is_blank;
use crate::text::push_str;
use crate::text::replace_all;
use crate::text::replace_all_str;
use crate::text::to_owned_str;
use crate::text::trim;
use crate::text::trim_str;
use crate::txml_elements::dirs_view;
use crate::txml_elements::lemma_dirs_view;
use crate::txml_elements::ser_dirs;
use crate::txml_elements::ser_files;
use crate::txml_elements::ser_meta;
use crate::txml_elements::spec_dir_attrs;
use crate::txml_elements::spec_file_attrs;
use crate::txml_elements::spec_meta_attrs;
use crate::txml_elements::spec_var_attrs;
use crate::txml_elements::Directory;
use crate::txml_elements::DirV;
use crate::txml_elements::File;
use crate::txml_elements::FileV;
use crate::txml_elements::MetaV;
use crate::txml_elements::TemplateMetadata;
use crate::txml_elements::Variable;
use crate::txml_elements::VarV;

verus! {

broadcast use vstd::std_specs::vec::group_vec_axioms, vstd::string::group_string_axioms;

/// Parser-level errors.
#[derive(Debug)]
pub enum TxmlProcessorError {
    /// The source path is missing or is not a file.
    InvalidDirectory,
    /// The source bytes are not valid text.
    BinaryFileError,
    /// A fatal reader error aborted the parse.
    UnknownParseError,
    /// Reserved for a strict parsing mode; unused by the lenient default.
    InvalidTag,
}

/// Spec view of a structure: top-level files and directories in insertion
/// order, the metadata record, and the rename flag.
pub ghost struct StructV {
    pub files: Seq<FileV>,
    pub dirs: Seq<DirV>,
    pub metadata: MetaV,
    pub renamable: bool,
}

/// The root aggregate: an ordered forest of top-level files and
/// directories, one metadata record, and the `renamable` flag (true unless
/// the root element declares otherwise).
pub struct TxmlStructure {
    files: Vec<File>,
    directories: Vec<Directory>,
    metadata: TemplateMetadata,
    renamable: bool,
}

impl View for TxmlStructure {
    type V = StructV;

    closed spec fn view(&self) -> StructV {
        StructV {
            files: Seq::new(self.files@.len(), |i: int| self.files@[i]@),
            dirs: dirs_view(self.directories@, 0),
            metadata: self.metadata@,
            renamable: self.renamable,
        }
    }
}

} // verus!

verus! {

// ---------------------------------------------------------------------------
// Basic structure operations
// ---------------------------------------------------------------------------
impl TxmlStructure {
    /// An empty structure: no children, empty metadata, renamable.
    pub fn new() -> (s: TxmlStructure)
        ensures
            s@.files == Seq::<FileV>::empty(),
            s@.dirs == Seq::<DirV>::empty(),
            s@.metadata == (MetaV {
                author: Seq::<char>::empty(),
                date: Seq::<char>::empty(),
                version: Seq::<char>::empty(),
                description: Seq::<char>::empty(),
            }),
            s@.renamable == true,
    {
        let s = TxmlStructure {
            files: Vec::new(),
            directories: Vec::new(),
            metadata: TemplateMetadata::new(),
            renamable: true,
        };
        proof {
            lemma_dirs_view(s.directories@, 0);
            assert(s@.files =~= Seq::<FileV>::empty());
            assert(s@.dirs =~= Seq::<DirV>::empty());
        }
        s
    }

    /// The metadata record.
    pub fn metadata(&self) -> (r: &TemplateMetadata)
        ensures
            r@ == self@.metadata,
    {
        &self.metadata
    }

    /// Whether the single-child rename rule applies at instantiation.
    pub fn renamable(&self) -> (r: bool)
        ensures
            r == self@.renamable,
    {
        self.renamable
    }

    /// The top-level files, in insertion order.
    pub fn files(&self) -> (r: &Vec<File>)
        ensures
            r@.len() == self@.files.len(),
            forall|i: int| 0 <= i < r@.len() ==> r@[i]@ == self@.files[i],
    {
        &self.files
    }

    /// The top-level directories, in insertion order.
    pub fn directories(&self) -> (r: &Vec<Directory>)
        ensures
            r@.len() == self@.dirs.len(),
            forall|i: int| 0 <= i < r@.len() ==> r@[i]@ == self@.dirs[i],
    {
        proof {
            lemma_dirs_view(self.directories@, 0);
        }
        &self.directories
    }

    /// Append a top-level file.
    pub fn add_file(&mut self, file: File)
        ensures
            final(self)@ == (StructV { files: old(self)@.files.push(file@), ..old(self)@ }),
    {
        self.files.push(file);
        proof {
            assert(self@.files =~= old(self)@.files.push(file@));
            assert(self@.dirs == old(self)@.dirs);
        }
    }

    /// Append a top-level directory.
    pub fn add_directory(&mut self, directory: Directory)
        ensures
            final(self)@ == (StructV { dirs: old(self)@.dirs.push(directory@), ..old(self)@ }),
    {
        self.directories.push(directory);
        proof {
            lemma_dirs_view(old(self).directories@, 0);
            lemma_dirs_view(self.directories@, 0);
            assert(self@.files =~= old(self)@.files);
            assert(self@.dirs =~= old(self)@.dirs.push(crate::txml_elements::dir_view(
                &directory,
            )));
        }
    }

    /// Set the flag that attribute `key` names: `renamable` is true exactly
    /// when its value is the text `true`; any other key is ignored.
    pub fn process_attribute(&mut self, key: &str, value: &str)
        ensures
            final(self)@ == spec_struct_attr(old(self)@, key@, value@),
    {
        if crate::text::str_eq(key, "renamable") {
            self.renamable = crate::text::str_eq(value, "true");
        }
        proof {
            assert(self@.files =~= old(self)@.files);
            assert(self@.dirs == old(self)@.dirs);
        }
    }
}

/// Effect of one root attribute on the structure.
pub open spec fn spec_struct_attr(s: StructV, key: Seq<char>, value: Seq<char>) -> StructV {
    if key == "renamable"@ {
        StructV { renamable: value == "true"@, ..s }
    } else {
        s
    }
}

/// Effect of the root attribute list, first to last.
pub open spec fn spec_struct_attrs(s: StructV, attrs: Seq<(Seq<char>, Seq<char>)>) -> StructV
    decreases attrs.len(),
{
    if attrs.len() == 0 {
        s
    } else {
        spec_struct_attrs(spec_struct_attr(s, attrs[0].0, attrs[0].1), attrs.skip(1))
    }
}

// ---------------------------------------------------------------------------
// Lexical validation
// ---------------------------------------------------------------------------
/// Lexical well-formedness from cursor `pos` on: the reader reaches `Eof`
/// without a fatal error.  An element outside the five known kinds is
/// recoverable and skipped, as everywhere in the lenient policy; malformed
/// or unsupported markup is fatal.
pub open spec fn spec_validate(s: Seq<char>, pos: int) -> bool
    decreases s.len() - pos,
{
    let r = spec_read_event(s, pos);
    match r.0 {
        Result::Err(TxmlReaderError::UnexpectedElement) => if pos < r.1 <= s.len() {
            spec_validate(s, r.1)
        } else {
            false
        },
        Result::Err(_) => false,
        Result::Ok(EventV::Eof) => true,
        Result::Ok(_) => if pos < r.1 <= s.len() {
            spec_validate(s, r.1)
        } else {
            false
        },
    }
}

impl TxmlStructure {
    /// Lexical well-formedness of a whole document; see `spec_validate`.
    pub fn validate_txml_str(txml: &str) -> (r: bool)
        ensures
            r == spec_validate(txml@, 0),
    {
        let mut reader = TxmlReader::from_str(txml);
        loop
            invariant
                reader.wf(),
                reader.doc_view() == txml@,
                0 <= reader.cursor() <= txml@.len(),
                spec_validate(txml@, 0) == spec_validate(txml@, reader.cursor()),
            decreases txml@.len() - reader.cursor(),
        {
            let ghost pos0 = reader.cursor();
            let ev = reader.read_event();
            proof {
                if pos0 < txml@.len() {
                    crate::reader::lemma_read_event_progress(txml@, pos0);
                }
            }
            match ev {
                Result::Err(TxmlReaderError::UnexpectedElement) => {
                },
                Result::Err(_) => {
                    return false;
                },
                Result::Ok(TxmlEvent::Eof) => {
                    return true;
                },
                Result::Ok(_) => {
                },
            }
        }
    }
}

// ---------------------------------------------------------------------------
// Variable discovery, resolution, substitution
// ---------------------------------------------------------------------------
/// The variables declared from cursor `pos` on, appended to `acc`: every
/// `Variable` element anywhere in the document, in document order.  An
/// element outside the five known kinds is skipped, as everywhere in the
/// lenient policy; a fatal reader error aborts the collection.
pub open spec fn spec_obtain_vars(s: Seq<char>, pos: int, acc: Seq<VarV>) -> Result<
    Seq<VarV>,
    TxmlProcessorError,
>
    decreases s.len() - pos,
{
    let r = spec_read_event(s, pos);
    let empty_var = VarV { name: Seq::<char>::empty(), value: Seq::<char>::empty() };
    match r.0 {
        Result::Err(TxmlReaderError::UnexpectedElement) => if pos < r.1 <= s.len() {
            spec_obtain_vars(s, r.1, acc)
        } else {
            Result::Ok(acc)
        },
        Result::Err(_) => Result::Err(TxmlProcessorError::UnknownParseError),
        Result::Ok(EventV::Eof) => Result::Ok(acc),
        Result::Ok(EventV::Variable(StateV::Start(attrs))) => if pos < r.1 <= s.len() {
            spec_obtain_vars(s, r.1, acc.push(spec_var_attrs(empty_var, attrs)))
        } else {
            Result::Ok(acc)
        },
        Result::Ok(EventV::Variable(StateV::Empty(attrs))) => if pos < r.1 <= s.len() {
            spec_obtain_vars(s, r.1, acc.push(spec_var_attrs(empty_var, attrs)))
        } else {
            Result::Ok(acc)
        },
        Result::Ok(_) => if pos < r.1 <= s.len() {
            spec_obtain_vars(s, r.1, acc)
        } else {
            Result::Ok(acc)
        },
    }
}

/// Resolution of the collected variables against a list of supplied
/// answers: a variable with a non-empty declared value keeps it; an
/// empty-valued variable takes the next unused answer, trimmed, or the
/// empty text when the answers are exhausted.  `ai` is the index of the
/// next unused answer.
pub open spec fn spec_resolve_vars(vars: Seq<VarV>, answers: Seq<Seq<char>>, ai: int) -> Seq<VarV>
    decreases vars.len(),
{
    if vars.len() == 0 {
        seq![]
    } else if vars[0].value.len() > 0 {
        seq![vars[0]] + spec_resolve_vars(vars.skip(1), answers, ai)
    } else {
        let value = if 0 <= ai < answers.len() {
            trim(answers[ai])
        } else {
            Seq::<char>::empty()
        };
        seq![VarV { name: vars[0].name, value: value }] + spec_resolve_vars(
            vars.skip(1),
            answers,
            ai + 1,
        )
    }
}

/// The substitution marker of a variable name.
pub open spec fn marker(name: Seq<char>) -> Seq<char> {
    "${"@ + name + "}"@
}

/// Textual substitution of every variable in order: each pass replaces
/// every occurrence of `${name}` by the variable's value.
pub open spec fn spec_substitute(s: Seq<char>, vars: Seq<VarV>) -> Seq<char>
    decreases vars.len(),
{
    if vars.len() == 0 {
        s
    } else {
        spec_substitute(replace_all(s, marker(vars[0].name), vars[0].value), vars.skip(1))
    }
}

/// Variable substitution law: when every `$` of the document starts an
/// occurrence of the variable's marker `${name}`, the name holds no `$`,
/// and the value holds no `$`, then the substituted document holds no `$`
/// at all — in particular, every occurrence of the marker has been
/// replaced by the value and no marker remains.
pub proof fn lemma_substitution_removes_markers(doc: Seq<char>, name: Seq<char>, value: Seq<char>)
    requires
        forall|i: int| 0 <= i < name.len() ==> #[trigger] name[i] != '$',
        forall|i: int| 0 <= i < value.len() ==> #[trigger] value[i] != '$',
        forall|i: int|
            0 <= i < doc.len() && #[trigger] doc[i] == '$' ==> crate::text::starts_with_at(
                doc,
                marker(name),
                i,
            ),
    ensures
        forall|i: int|
            0 <= i < spec_substitute(doc, seq![VarV { name, value }]).len()
                ==> #[trigger] spec_substitute(doc, seq![VarV { name, value }])[i] != '$',
        !crate::text::contains_seq(spec_substitute(doc, seq![VarV { name, value }]), marker(name)),
{
    let pat = marker(name);
    reveal_strlit("${");
    reveal_strlit("}");
    assert("${"@.len() == 2);
    assert("}"@.len() == 1);
    assert(pat[0] == '$');
    assert(forall|i: int| 1 <= i < pat.len() ==> #[trigger] pat[i] != pat[0]) by {
        assert(forall|i: int| 0 <= i < name.len() ==> #[trigger] pat[2 + i] == name[i]);
    }
    crate::text::lemma_replace_all_removes_lead(doc, pat, value);
    let vars = seq![VarV { name, value }];
    assert(vars.skip(1) =~= Seq::<VarV>::empty());
    let result = spec_substitute(doc, vars);
    assert(vars[0] == VarV { name, value });
    assert(result == spec_substitute(replace_all(doc, pat, value), vars.skip(1)));
    assert(result == replace_all(doc, pat, value));
    assert(!crate::text::contains_seq(result, pat)) by {
        if crate::text::contains_seq(result, pat) {
            let i = choose|i: int| crate::text::starts_with_at(result, pat, i);
            assert(result.subrange(i, i + pat.len())[0] == result[i]);
            assert(result[i] == '$');
        }
    }
}

impl TxmlStructure {
    /// Collect every variable declaration of the document; see
    /// `spec_obtain_vars`.
    pub fn obtain_variables(fxml: &str) -> (r: Result<Vec<Variable>, TxmlProcessorError>)
        ensures
            (match r {
                Result::Ok(vars) => spec_obtain_vars(fxml@, 0, Seq::<VarV>::empty())
                    == Result::<Seq<VarV>, TxmlProcessorError>::Ok(vars.deep_view()),
                Result::Err(e) => spec_obtain_vars(fxml@, 0, Seq::<VarV>::empty())
                    == Result::<Seq<VarV>, TxmlProcessorError>::Err(e),
            }),
    {
        let mut reader = TxmlReader::from_str(fxml);
        let mut vars: Vec<Variable> = Vec::new();
        proof {
            assert(vars.deep_view() =~= Seq::<VarV>::empty());
        }
        loop
            invariant
                reader.wf(),
                reader.doc_view() == fxml@,
                0 <= reader.cursor() <= fxml@.len(),
                spec_obtain_vars(fxml@, 0, Seq::<VarV>::empty()) == spec_obtain_vars(
                    fxml@,
                    reader.cursor(),
                    vars.deep_view(),
                ),
            decreases fxml@.len() - reader.cursor(),
        {
            let ghost pos0 = reader.cursor();
            let ghost vars0 = vars.deep_view();
            let ev = reader.read_event();
            proof {
                if pos0 < fxml@.len() {
                    crate::reader::lemma_read_event_progress(fxml@, pos0);
                }
            }
            match ev {
                Result::Err(TxmlReaderError::UnexpectedElement) => {
                },
                Result::Err(_) => {
                    return Result::Err(TxmlProcessorError::UnknownParseError);
                },
                Result::Ok(TxmlEvent::Eof) => {
                    return Result::Ok(vars);
                },
                Result::Ok(TxmlEvent::Variable(st)) => {
                    match st {
                        ElementState::Start(attrs) | ElementState::Empty(attrs) => {
                            let mut var = Variable::new();
                            apply_var_attrs(&mut var, &attrs);
                            vars.push(var);
                            proof {
                                assert(vars.deep_view() =~= vars0.push(var@));
                            }
                        },
                        ElementState::End => {
                        },
                    }
                },
                Result::Ok(_) => {
                },
            }
        }
    }

    /// Resolve the variables against supplied answers; see
    /// `spec_resolve_vars`.  `answers` holds, in order, one entry for each
    /// empty-valued variable.
    pub fn resolve_variables(vars: &Vec<Variable>, answers: &Vec<String>) -> (r: Vec<Variable>)
        ensures
            r.deep_view() == spec_resolve_vars(vars.deep_view(), answers.deep_view(), 0),
    {
        let mut out: Vec<Variable> = Vec::new();
        let mut ai: usize = 0;
        proof {
            reveal_strlit("name");
            reveal_strlit("value");
            assert("name"@.len() == 4);
            assert("value"@.len() == 5);
            assert("name"@ != "value"@);
            assert(vars.deep_view().skip(0) =~= vars.deep_view());
            assert(out.deep_view() + spec_resolve_vars(vars.deep_view(), answers.deep_view(), 0)
                =~= spec_resolve_vars(vars.deep_view(), answers.deep_view(), 0));
        }
        let mut i: usize = 0;
        while i < vars.len()
            invariant
                0 <= i <= vars@.len(),
                0 <= ai <= i,
                spec_resolve_vars(vars.deep_view(), answers.deep_view(), 0) == out.deep_view()
                    + spec_resolve_vars(vars.deep_view().skip(i as int), answers.deep_view(), ai as int),
            decreases vars@.len() - i,
        {
            let ghost rest = vars.deep_view().skip(i as int);
            let ghost out0 = out.deep_view();
            let ghost tail = spec_resolve_vars(
                vars.deep_view().skip(i + 1),
                answers.deep_view(),
                if rest[0].value.len() > 0 {
                    ai as int
                } else {
                    ai + 1
                },
            );
            proof {
                assert(rest[0] == vars.deep_view()[i as int]);
                assert(rest.skip(1) =~= vars.deep_view().skip(i + 1));
            }
            let v: &Variable = &vars[i];
            let mut nv = Variable::new();
            nv.process_attribute("name", v.get_name());
            if v.get_value().unicode_len() > 0 {
                nv.process_attribute("value", v.get_value());
                proof {
                    assert(nv@ == rest[0]);
                }
            } else {
                if ai < answers.len() {
                    let ans: &String = &answers[ai];
                    let trimmed = trim_str(ans.as_str());
                    nv.process_attribute("value", trimmed);
                    proof {
                        assert(nv@.value == trim(answers.deep_view()[ai as int]));
                    }
                }
                ai = ai + 1;
            }
            out.push(nv);
            proof {
                assert(out.deep_view() =~= out0.push(nv@));
                assert(spec_resolve_vars(rest, answers.deep_view(), (ai as int)) == seq![nv@]
                    + tail || spec_resolve_vars(rest, answers.deep_view(), ai - 1) == seq![nv@]
                    + tail);
                assert(out0.push(nv@) + tail =~= out0 + (seq![nv@] + tail));
            }
            i = i + 1;
        }
        proof {
            assert(vars.deep_view().skip(vars.deep_view().len() as int)
                =~= Seq::<VarV>::empty());
            assert(out.deep_view() + Seq::<VarV>::empty() =~= out.deep_view());
        }
        out
    }

    /// Textually substitute every resolved variable's marker; see
    /// `spec_substitute`.
    pub fn substitute_variables(s: &str, vars: &Vec<Variable>) -> (r: String)
        ensures
            r@ == spec_substitute(s@, vars.deep_view()),
    {
        let mut cur = to_owned_str(s);
        proof {
            assert(vars.deep_view().skip(0) =~= vars.deep_view());
        }
        let mut i: usize = 0;
        while i < vars.len()
            invariant
                0 <= i <= vars@.len(),
                spec_substitute(s@, vars.deep_view()) == spec_substitute(
                    cur@,
                    vars.deep_view().skip(i as int),
                ),
            decreases vars@.len() - i,
        {
            let ghost rest = vars.deep_view().skip(i as int);
            proof {
                assert(rest[0] == vars.deep_view()[i as int]);
                assert(rest.skip(1) =~= vars.deep_view().skip(i + 1));
            }
            let v: &Variable = &vars[i];
            let mut pat = to_owned_str("${");
            push_str(&mut pat, v.get_name());
            push_str(&mut pat, "}");
            proof {
                assert(pat@ =~= marker(vars.deep_view()[i as int].name));
            }
            cur = replace_all_str(cur.as_str(), pat.as_str(), v.get_value());
            i = i + 1;
        }
        proof {
            assert(vars.deep_view().skip(vars.deep_view().len() as int) =~= Seq::<VarV>::empty());
        }
        cur
    }
}

// ---------------------------------------------------------------------------
// The tree builder
// ---------------------------------------------------------------------------
/// Builder state: the structure under construction, the stack of open
/// directories (innermost last), and the file under construction between
/// its Start and End events, if any.
pub ghost struct BuildSt {
    pub s: StructV,
    pub stack: Seq<DirV>,
    pub cur: Option<FileV>,
}

pub open spec fn empty_file_v() -> FileV {
    FileV {
        name: Seq::<char>::empty(),
        extension: Seq::<char>::empty(),
        command: Seq::<char>::empty(),
        content: Seq::<char>::empty(),
    }
}

pub open spec fn empty_dir_v() -> DirV {
    DirV {
        name: Seq::<char>::empty(),
        in_command: Seq::<char>::empty(),
        out_command: Seq::<char>::empty(),
        files: Seq::<FileV>::empty(),
        dirs: Seq::<DirV>::empty(),
    }
}

pub open spec fn empty_struct_v() -> StructV {
    StructV {
        files: Seq::<FileV>::empty(),
        dirs: Seq::<DirV>::empty(),
        metadata: MetaV {
            author: Seq::<char>::empty(),
            date: Seq::<char>::empty(),
            version: Seq::<char>::empty(),
            description: Seq::<char>::empty(),
        },
        renamable: true,
    }
}

/// Attach a finished directory to the innermost open directory, or to the
/// structure root when none is open.
pub open spec fn attach_dir(bs: BuildSt, d: DirV) -> BuildSt {
    if bs.stack.len() == 0 {
        BuildSt { s: StructV { dirs: bs.s.dirs.push(d), ..bs.s }, ..bs }
    } else {
        let top = bs.stack.last();
        BuildSt { stack: bs.stack.drop_last().push(DirV { dirs: top.dirs.push(d), ..top }), ..bs }
    }
}

/// Attach a finished file to the innermost open directory, or to the
/// structure root when none is open.
pub open spec fn attach_file(bs: BuildSt, f: FileV) -> BuildSt {
    if bs.stack.len() == 0 {
        BuildSt { s: StructV { files: bs.s.files.push(f), ..bs.s }, ..bs }
    } else {
        let top = bs.stack.last();
        BuildSt { stack: bs.stack.drop_last().push(DirV { files: top.files.push(f), ..top }), ..bs }
    }
}

/// One transition of the builder: the state after the event, and whether
/// the parse terminates (at a Root End).  A stray Directory or File End
/// with nothing open is ignored; a repeated File Start replaces the file
/// under construction; a text run that is not purely whitespace overwrites
/// the current file's content, last occurrence winning.
pub open spec fn spec_build_step(bs: BuildSt, ev: EventV) -> (BuildSt, bool) {
    match ev {
        EventV::Root(st) => match st {
            StateV::Start(attrs) => (BuildSt { s: spec_struct_attrs(bs.s, attrs), ..bs }, false),
            StateV::End => (bs, true),
            StateV::Empty(_) => (bs, false),
        },
        EventV::Metadata(st) => match st {
            StateV::Start(attrs) => (
                BuildSt {
                    s: StructV { metadata: spec_meta_attrs(bs.s.metadata, attrs), ..bs.s },
                    ..bs
                },
                false,
            ),
            StateV::Empty(attrs) => (
                BuildSt {
                    s: StructV { metadata: spec_meta_attrs(bs.s.metadata, attrs), ..bs.s },
                    ..bs
                },
                false,
            ),
            StateV::End => (bs, false),
        },
        EventV::Variable(_) => (bs, false),
        EventV::Directory(st) => match st {
            StateV::Start(attrs) => (
                BuildSt { stack: bs.stack.push(spec_dir_attrs(empty_dir_v(), attrs)), ..bs },
                false,
            ),
            StateV::Empty(attrs) => (attach_dir(bs, spec_dir_attrs(empty_dir_v(), attrs)), false),
            StateV::End => if bs.stack.len() == 0 {
                (bs, false)
            } else {
                (attach_dir(BuildSt { stack: bs.stack.drop_last(), ..bs }, bs.stack.last()), false)
            },
        },
        EventV::File(st) => match st {
            StateV::Start(attrs) => (
                BuildSt { cur: Option::Some(spec_file_attrs(empty_file_v(), attrs)), ..bs },
                false,
            ),
            StateV::Empty(attrs) => (attach_file(bs, spec_file_attrs(empty_file_v(), attrs)), false),
            StateV::End => match bs.cur {
                Option::None => (bs, false),
                Option::Some(f) => (attach_file(BuildSt { cur: Option::None, ..bs }, f), false),
            },
        },
        EventV::Text(t) => match bs.cur {
            Option::None => (bs, false),
            Option::Some(f) => if is_blank(t) {
                (bs, false)
            } else {
                (BuildSt { cur: Option::Some(FileV { content: t, ..f }), ..bs }, false)
            },
        },
        EventV::Comment => (bs, false),
        EventV::Declaration => (bs, false),
        EventV::Eof => (bs, false),
    }
}

/// The structure built from cursor `pos` on, folding `spec_build_step` over
/// the events.  An element outside the five known kinds is skipped — the
/// lenient policy; a malformed token or a construct outside the dialect is
/// fatal and yields `UnknownParseError`; the fold ends at a Root End or at
/// end of input.  At end of input, directories and a file still open are
/// dropped: an unterminated document yields the tree of its completed
/// elements.
pub open spec fn spec_build_from(s: Seq<char>, pos: int, bs: BuildSt) -> Result<
    StructV,
    TxmlProcessorError,
>
    decreases s.len() - pos,
{
    let r = spec_read_event(s, pos);
    match r.0 {
        Result::Err(TxmlReaderError::UnexpectedElement) => if pos < r.1 <= s.len() {
            spec_build_from(s, r.1, bs)
        } else {
            Result::Ok(bs.s)
        },
        Result::Err(_) => Result::Err(TxmlProcessorError::UnknownParseError),
        Result::Ok(EventV::Eof) => Result::Ok(bs.s),
        Result::Ok(ev) => {
            let st = spec_build_step(bs, ev);
            if st.1 {
                Result::Ok(st.0.s)
            } else if pos < r.1 <= s.len() {
                spec_build_from(s, r.1, st.0)
            } else {
                Result::Ok(st.0.s)
            }
        },
    }
}

/// The structure built from a whole (already substituted) document.
pub open spec fn spec_build(s: Seq<char>) -> Result<StructV, TxmlProcessorError> {
    spec_build_from(
        s,
        0,
        BuildSt { s: empty_struct_v(), stack: Seq::<DirV>::empty(), cur: Option::None },
    )
}

/// The whole two-pass parse: collect variables, resolve them against the
/// supplied answers, substitute their markers textually, and build the tree
/// from the substituted text.
pub open spec fn spec_parse(s: Seq<char>, answers: Seq<Seq<char>>) -> Result<
    StructV,
    TxmlProcessorError,
> {
    match spec_obtain_vars(s, 0, Seq::<VarV>::empty()) {
        Result::Err(e) => Result::Err(e),
        Result::Ok(vars) => spec_build(spec_substitute(s, spec_resolve_vars(vars, answers, 0))),
    }
}

/// The builder's starting state: an empty structure, no open directory,
/// no file under construction.
pub open spec fn init_build_state() -> BuildSt {
    BuildSt { s: empty_struct_v(), stack: Seq::<DirV>::empty(), cur: Option::None }
}

// ---------------------------------------------------------------------------
// Close-tag balance
// ---------------------------------------------------------------------------
/// Accounting of one builder run: how many Directory Start events were
/// folded, how many Directory End events closed an open directory, the
/// state the fold stopped in, and whether it aborted on a fatal reader
/// error.
pub ghost struct RunStats {
    pub dir_starts: int,
    pub dir_pops: int,
    pub st: BuildSt,
    pub failed: bool,
}

/// Whether the event opens a directory.
pub open spec fn ev_dir_start(ev: EventV) -> int {
    match ev {
        EventV::Directory(st) => match st {
            StateV::Start(_) => 1,
            StateV::End => 0,
            StateV::Empty(_) => 0,
        },
        _ => 0,
    }
}

/// Whether the event closes an open directory in state `bs`.
pub open spec fn ev_dir_pop(bs: BuildSt, ev: EventV) -> int {
    match ev {
        EventV::Directory(st) => match st {
            StateV::End => if bs.stack.len() > 0 {
                1
            } else {
                0
            },
            StateV::Start(_) => 0,
            StateV::Empty(_) => 0,
        },
        _ => 0,
    }
}

/// The accounting of the build fold from cursor `pos` in state `bs`; it
/// follows `spec_build_from` event for event.
pub open spec fn spec_build_stats(s: Seq<char>, pos: int, bs: BuildSt) -> RunStats
    decreases s.len() - pos,
{
    let r = spec_read_event(s, pos);
    match r.0 {
        Result::Err(TxmlReaderError::UnexpectedElement) => if pos < r.1 <= s.len() {
            spec_build_stats(s, r.1, bs)
        } else {
            RunStats { dir_starts: 0, dir_pops: 0, st: bs, failed: false }
        },
        Result::Err(_) => RunStats { dir_starts: 0, dir_pops: 0, st: bs, failed: true },
        Result::Ok(EventV::Eof) => RunStats { dir_starts: 0, dir_pops: 0, st: bs, failed: false },
        Result::Ok(ev) => {
            let st = spec_build_step(bs, ev);
            if st.1 {
                RunStats { dir_starts: 0, dir_pops: 0, st: st.0, failed: false }
            } else if pos < r.1 <= s.len() {
                let rest = spec_build_stats(s, r.1, st.0);
                RunStats {
                    dir_starts: ev_dir_start(ev) + rest.dir_starts,
                    dir_pops: ev_dir_pop(bs, ev) + rest.dir_pops,
                    st: rest.st,
                    failed: rest.failed,
                }
            } else {
                RunStats { dir_starts: 0, dir_pops: 0, st: st.0, failed: false }
            }
        },
    }
}

/// One builder step moves the open-directory count by exactly the event's
/// contribution: up one on a Directory Start, down one on a Directory End
/// that closes one, unchanged otherwise.
pub proof fn lemma_step_stack_len(bs: BuildSt, ev: EventV)
    ensures
        spec_build_step(bs, ev).0.stack.len() == bs.stack.len() + ev_dir_start(ev) - ev_dir_pop(
            bs,
            ev,
        ),
{
}

/// Close-tag balance: along any non-aborted build fold, the number of
/// open directories moves in lockstep with the event counts, so the fold
/// ends with `bs.stack.len() + dir_starts - dir_pops` directories open,
/// and no more directories can be closed than were open or opened.  The
/// fold's parse result is `spec_build_from`'s.
pub proof fn lemma_close_tag_balance(s: Seq<char>, pos: int, bs: BuildSt)
    requires
        0 <= pos,
    ensures
        !spec_build_stats(s, pos, bs).failed ==> spec_build_stats(s, pos, bs).st.stack.len()
            == bs.stack.len() + spec_build_stats(s, pos, bs).dir_starts - spec_build_stats(
            s,
            pos,
            bs,
        ).dir_pops,
        spec_build_stats(s, pos, bs).dir_pops <= bs.stack.len() + spec_build_stats(
            s,
            pos,
            bs,
        ).dir_starts,
        spec_build_stats(s, pos, bs).failed ==> spec_build_from(s, pos, bs) == Result::<
            StructV,
            TxmlProcessorError,
        >::Err(TxmlProcessorError::UnknownParseError),
        !spec_build_stats(s, pos, bs).failed ==> spec_build_from(s, pos, bs) == Result::<
            StructV,
            TxmlProcessorError,
        >::Ok(spec_build_stats(s, pos, bs).st.s),
    decreases s.len() - pos,
{
    let r = spec_read_event(s, pos);
    match r.0 {
        Result::Err(TxmlReaderError::UnexpectedElement) => {
            if pos < r.1 <= s.len() {
                lemma_close_tag_balance(s, r.1, bs);
            }
        },
        Result::Err(_) => {
        },
        Result::Ok(EventV::Eof) => {
        },
        Result::Ok(ev) => {
            assert(pos < s.len());
            crate::reader::lemma_read_event_progress(s, pos);
            let st = spec_build_step(bs, ev);
            lemma_step_stack_len(bs, ev);
            if !st.1 {
                lemma_close_tag_balance(s, r.1, st.0);
            }
        },
    }
}

/// A structurally well-formed document — one whose build completes with
/// no directory left open — folds exactly as many Directory End events
/// that close a directory as Directory Start events; an imbalanced
/// document leaves the surplus opens on the stack, and the builder then
/// drops them: the parse still succeeds with the completed elements only.
pub proof fn lemma_balanced_document(s: Seq<char>)
    ensures
        (!spec_build_stats(s, 0, init_build_state()).failed && spec_build_stats(
            s,
            0,
            init_build_state(),
        ).st.stack.len() == 0) ==> spec_build_stats(s, 0, init_build_state()).dir_pops
            == spec_build_stats(s, 0, init_build_state()).dir_starts,
        !spec_build_stats(s, 0, init_build_state()).failed ==> spec_build(s) == Result::<
            StructV,
            TxmlProcessorError,
        >::Ok(spec_build_stats(s, 0, init_build_state()).st.s),
{
    lemma_close_tag_balance(s, 0, init_build_state());
}

/// The root attributes never touch the attached children.
proof fn lemma_struct_attrs_keep_children(s0: StructV, attrs: Seq<(Seq<char>, Seq<char>)>)
    ensures
        spec_struct_attrs(s0, attrs).files == s0.files,
        spec_struct_attrs(s0, attrs).dirs == s0.dirs,
    decreases attrs.len(),
{
    if attrs.len() > 0 {
        lemma_struct_attrs_keep_children(spec_struct_attr(s0, attrs[0].0, attrs[0].1), attrs.skip(1));
    }
}

/// One builder step only appends at the root: what is already attached
/// keeps its position and is never removed.
proof fn lemma_step_appends(bs: BuildSt, ev: EventV)
    ensures
        bs.s.files.is_prefix_of(spec_build_step(bs, ev).0.s.files),
        bs.s.dirs.is_prefix_of(spec_build_step(bs, ev).0.s.dirs),
{
    let st = spec_build_step(bs, ev).0;
    match ev {
        EventV::Root(r) => {
            match r {
                StateV::Start(attrs) => {
                    lemma_struct_attrs_keep_children(bs.s, attrs);
                },
                StateV::End => {
                },
                StateV::Empty(_) => {
                },
            }
        },
        _ => {
        },
    }
    assert(bs.s.files.is_prefix_of(st.s.files)) by {
        if st.s.files != bs.s.files {
            assert(st.s.files.subrange(0, bs.s.files.len() as int) =~= bs.s.files);
        } else {
            assert(st.s.files.subrange(0, bs.s.files.len() as int) =~= bs.s.files);
        }
    }
    assert(bs.s.dirs.is_prefix_of(st.s.dirs)) by {
        if st.s.dirs != bs.s.dirs {
            assert(st.s.dirs.subrange(0, bs.s.dirs.len() as int) =~= bs.s.dirs);
        } else {
            assert(st.s.dirs.subrange(0, bs.s.dirs.len() as int) =~= bs.s.dirs);
        }
    }
}

/// Sibling order is preserved: along any build fold that succeeds, the
/// children already attached at the top level stay, in their positions —
/// the builder only ever appends, so document order is kept in every
/// files list and every directories list.
pub proof fn lemma_build_preserves_order(s: Seq<char>, pos: int, bs: BuildSt)
    requires
        0 <= pos,
    ensures
        (match spec_build_from(s, pos, bs) {
            Result::Ok(r) => bs.s.files.is_prefix_of(r.files) && bs.s.dirs.is_prefix_of(r.dirs),
            Result::Err(_) => true,
        }),
    decreases s.len() - pos,
{
    let r = spec_read_event(s, pos);
    assert(bs.s.files.is_prefix_of(bs.s.files) && bs.s.dirs.is_prefix_of(bs.s.dirs)) by {
        assert(bs.s.files.subrange(0, bs.s.files.len() as int) =~= bs.s.files);
        assert(bs.s.dirs.subrange(0, bs.s.dirs.len() as int) =~= bs.s.dirs);
    }
    match r.0 {
        Result::Err(TxmlReaderError::UnexpectedElement) => {
            if pos < r.1 <= s.len() {
                lemma_build_preserves_order(s, r.1, bs);
            }
        },
        Result::Err(_) => {
        },
        Result::Ok(EventV::Eof) => {
        },
        Result::Ok(ev) => {
            let st = spec_build_step(bs, ev);
            lemma_step_appends(bs, ev);
            if !st.1 && pos < r.1 <= s.len() {
                lemma_build_preserves_order(s, r.1, st.0);
                match spec_build_from(s, r.1, st.0) {
                    Result::Ok(out) => {
                        lemma_prefix_trans(bs.s.files, st.0.s.files, out.files);
                        lemma_prefix_trans(bs.s.dirs, st.0.s.dirs, out.dirs);
                    },
                    Result::Err(_) => {
                    },
                }
            }
        },
    }
}

/// Prefixes chain.
proof fn lemma_prefix_trans<A>(a: Seq<A>, b: Seq<A>, c: Seq<A>)
    requires
        a.is_prefix_of(b),
        b.is_prefix_of(c),
    ensures
        a.is_prefix_of(c),
{
    assert(c.subrange(0, a.len() as int) =~= a) by {
        assert(forall|i: int|
            0 <= i < a.len() ==> #[trigger] c.subrange(0, a.len() as int)[i] == c.subrange(
                0,
                b.len() as int,
            )[i]);
        assert(forall|i: int|
            0 <= i < a.len() ==> #[trigger] b.subrange(0, a.len() as int)[i] == b[i]);
        assert(forall|i: int| 0 <= i < a.len() ==> #[trigger] a[i] == b.subrange(
            0,
            a.len() as int,
        )[i]);
    }
}

/// The builder state that the exec values stand for.
pub open spec fn st_of(structure: TxmlStructure, stack: Seq<Directory>, cur: Option<File>) -> BuildSt {
    BuildSt {
        s: structure@,
        stack: dirs_view(stack, 0),
        cur: match cur {
            Option::None => Option::None,
            Option::Some(f) => Option::Some(f@),
        },
    }
}

impl TxmlStructure {
    /// Apply a metadata element's attributes to the structure's record.
    fn apply_metadata_attrs(&mut self, attrs: &Vec<(String, String)>)
        ensures
            final(self)@ == (StructV {
                metadata: spec_meta_attrs(old(self)@.metadata, attrs.deep_view()),
                ..old(self)@
            }),
    {
        proof {
            assert(attrs.deep_view().skip(0) =~= attrs.deep_view());
        }
        let mut k: usize = 0;
        while k < attrs.len()
            invariant
                0 <= k <= attrs@.len(),
                spec_meta_attrs(old(self)@.metadata, attrs.deep_view()) == spec_meta_attrs(
                    self@.metadata,
                    attrs.deep_view().skip(k as int),
                ),
                self@.files == old(self)@.files,
                self@.dirs == old(self)@.dirs,
                self@.renamable == old(self)@.renamable,
            decreases attrs@.len() - k,
        {
            let ghost rest = attrs.deep_view().skip(k as int);
            proof {
                assert(rest[0] == attrs.deep_view()[k as int]);
                assert(rest.skip(1) =~= attrs.deep_view().skip(k + 1));
            }
            self.metadata.process_attribute(attrs[k].0.as_str(), attrs[k].1.as_str());
            proof {
                assert(self@.files =~= old(self)@.files);
                assert(self@.dirs == old(self)@.dirs);
            }
            k = k + 1;
        }
        proof {
            assert(attrs.deep_view().skip(attrs.deep_view().len() as int) =~= Seq::<(
                Seq<char>,
                Seq<char>,
            )>::empty());
        }
    }

    /// Apply the root element's attributes to the structure.
    fn apply_root_attrs(&mut self, attrs: &Vec<(String, String)>)
        ensures
            final(self)@ == spec_struct_attrs(old(self)@, attrs.deep_view()),
    {
        proof {
            assert(attrs.deep_view().skip(0) =~= attrs.deep_view());
        }
        let mut k: usize = 0;
        while k < attrs.len()
            invariant
                0 <= k <= attrs@.len(),
                spec_struct_attrs(old(self)@, attrs.deep_view()) == spec_struct_attrs(
                    self@,
                    attrs.deep_view().skip(k as int),
                ),
            decreases attrs@.len() - k,
        {
            let ghost rest = attrs.deep_view().skip(k as int);
            proof {
                assert(rest[0] == attrs.deep_view()[k as int]);
                assert(rest.skip(1) =~= attrs.deep_view().skip(k + 1));
            }
            self.process_attribute(attrs[k].0.as_str(), attrs[k].1.as_str());
            k = k + 1;
        }
        proof {
            assert(attrs.deep_view().skip(attrs.deep_view().len() as int) =~= Seq::<(
                Seq<char>,
                Seq<char>,
            )>::empty());
        }
    }

    /// Build a structure from already substituted markup text, folding the
    /// event stream as `spec_build` describes.
    #[verifier::rlimit(100)]
    pub fn build_structure(s: &str) -> (r: Result<TxmlStructure, TxmlProcessorError>)
        ensures
            (match r {
                Result::Ok(st) => spec_build(s@) == Result::<StructV, TxmlProcessorError>::Ok(
                    st@,
                ),
                Result::Err(e) => spec_build(s@) == Result::<StructV, TxmlProcessorError>::Err(e),
            }),
    {
        let mut structure = TxmlStructure::new();
        let mut stack: Vec<Directory> = Vec::new();
        let mut cur: Option<File> = Option::None;
        let mut reader = TxmlReader::from_str(s);
        proof {
            lemma_dirs_view(stack@, 0);
            assert(dirs_view(stack@, 0) =~= Seq::<DirV>::empty());
            assert(st_of(structure, stack@, cur) == BuildSt {
                s: empty_struct_v(),
                stack: Seq::<DirV>::empty(),
                cur: Option::None,
            });
        }
        loop
            invariant
                reader.wf(),
                reader.doc_view() == s@,
                0 <= reader.cursor() <= s@.len(),
                spec_build(s@) == spec_build_from(s@, reader.cursor(), st_of(structure, stack@, cur)),
            decreases s@.len() - reader.cursor(),
        {
            let ghost pos0 = reader.cursor();
            let ghost bs0 = st_of(structure, stack@, cur);
            let ev = reader.read_event();
            proof {
                if pos0 < s@.len() {
                    crate::reader::lemma_read_event_progress(s@, pos0);
                }
            }
            match ev {
                Result::Err(TxmlReaderError::UnexpectedElement) => {
                },
                Result::Err(_) => {
                    return Result::Err(TxmlProcessorError::UnknownParseError);
                },
                Result::Ok(TxmlEvent::Eof) => {
                    return Result::Ok(structure);
                },
                Result::Ok(TxmlEvent::Root(st)) => {
                    match st {
                        ElementState::Start(attrs) => {
                            let ghost ev_v = EventV::Root(StateV::Start(attrs.deep_view()));
                            structure.apply_root_attrs(&attrs);
                            proof {
                                assert(st_of(structure, stack@, cur) == spec_build_step(
                                    bs0,
                                    ev_v,
                                ).0);
                            }
                        },
                        ElementState::End => {
                            return Result::Ok(structure);
                        },
                        ElementState::Empty(_) => {
                        },
                    }
                },
                Result::Ok(TxmlEvent::Metadata(st)) => {
                    match st {
                        ElementState::Start(attrs) | ElementState::Empty(attrs) => {
                            structure.apply_metadata_attrs(&attrs);
                            proof {
                                assert(st_of(structure, stack@, cur).stack == bs0.stack);
                                assert(st_of(structure, stack@, cur).cur == bs0.cur);
                            }
                        },
                        ElementState::End => {
                        },
                    }
                },
                Result::Ok(TxmlEvent::Variable(_)) => {

                },
                Result::Ok(TxmlEvent::Directory(st)) => {
                    match st {
                        ElementState::Start(attrs) => {
                            let mut d = Directory::new();
                            proof {
                                assert(d@ == empty_dir_v());
                            }
                            apply_dir_attrs(&mut d, &attrs);
                            let ghost stack0 = stack@;
                            stack.push(d);
                            proof {
                                lemma_dirs_view(stack0, 0);
                                lemma_dirs_view(stack@, 0);
                                assert(dirs_view(stack@, 0) =~= dirs_view(stack0, 0).push(
                                    crate::txml_elements::dir_view(&d),
                                ));
                                assert(st_of(structure, stack@, cur) == spec_build_step(
                                    bs0,
                                    EventV::Directory(StateV::Start(attrs.deep_view())),
                                ).0);
                            }
                        },
                        ElementState::Empty(attrs) => {
                            let mut d = Directory::new();
                            proof {
                                assert(d@ == empty_dir_v());
                            }
                            apply_dir_attrs(&mut d, &attrs);
                            attach_directory(&mut structure, &mut stack, d);
                            proof {
                                assert(st_of(structure, stack@, cur) == spec_build_step(
                                    bs0,
                                    EventV::Directory(StateV::Empty(attrs.deep_view())),
                                ).0);
                            }
                        },
                        ElementState::End => {
                            if stack.len() > 0 {
                                let ghost stack_before = stack@;
                                let d = match stack.pop() {
                                    Option::Some(d) => d,
                                    Option::None => {
                                        proof {
                                            assert(false);
                                        }
                                        Directory::new()
                                    },
                                };
                                proof {
                                    lemma_dirs_view(stack_before, 0);
                                    lemma_dirs_view(stack@, 0);
                                    assert(dirs_view(stack@, 0) =~= dirs_view(
                                        stack_before,
                                        0,
                                    ).drop_last());
                                    assert(d@ == bs0.stack.last());
                                }
                                attach_directory(&mut structure, &mut stack, d);
                                proof {
                                    assert(st_of(structure, stack@, cur) == spec_build_step(
                                        bs0,
                                        EventV::Directory(StateV::End),
                                    ).0);
                                }
                            } else {
                                proof {
                                    lemma_dirs_view(stack@, 0);
                                }
                            }
                        },
                    }
                },
                Result::Ok(TxmlEvent::File(st)) => {
                    match st {
                        ElementState::Start(attrs) => {
                            let mut f = File::new();
                            proof {
                                assert(f@ == empty_file_v());
                            }
                            apply_file_attrs(&mut f, &attrs);
                            cur = Option::Some(f);
                            proof {
                                assert(st_of(structure, stack@, cur) == spec_build_step(
                                    bs0,
                                    EventV::File(StateV::Start(attrs.deep_view())),
                                ).0);
                            }
                        },
                        ElementState::Empty(attrs) => {
                            let mut f = File::new();
                            proof {
                                assert(f@ == empty_file_v());
                            }
                            apply_file_attrs(&mut f, &attrs);
                            attach_file_exec(&mut structure, &mut stack, f);
                            proof {
                                assert(st_of(structure, stack@, cur) == spec_build_step(
                                    bs0,
                                    EventV::File(StateV::Empty(attrs.deep_view())),
                                ).0);
                            }
                        },
                        ElementState::End => {
                            let c0 = cur;
                            cur = Option::None;
                            match c0 {
                                Option::None => {
                                },
                                Option::Some(f) => {
                                    attach_file_exec(&mut structure, &mut stack, f);
                                    proof {
                                        assert(st_of(structure, stack@, cur) == spec_build_step(
                                            bs0,
                                            EventV::File(StateV::End),
                                        ).0);
                                    }
                                },
                            }
                        },
                    }
                },
                Result::Ok(TxmlEvent::Text(t)) => {
                    let ghost t_v = t@;
                    let c0 = cur;
                    match c0 {
                        Option::None => {
                            cur = Option::None;
                        },
                        Option::Some(mut f) => {
                            if !blank_str(t.as_str()) {
                                f.set_text(t);
                            }
                            cur = Option::Some(f);
                            proof {
                                assert(st_of(structure, stack@, cur) == spec_build_step(
                                    bs0,
                                    EventV::Text(t_v),
                                ).0);
                            }
                        },
                    }
                },
                Result::Ok(TxmlEvent::Comment) => {

                },
                Result::Ok(TxmlEvent::Declaration) => {

                },
            }
        }
    }
}

/// Attach a finished directory to the innermost open directory or to the
/// root, as `attach_dir` describes.
fn attach_directory(structure: &mut TxmlStructure, stack: &mut Vec<Directory>, d: Directory)
    ensures
        final(structure)@ == attach_dir(
            st_of(*old(structure), old(stack)@, Option::None),
            d@,
        ).s,
        dirs_view(final(stack)@, 0) == attach_dir(
            st_of(*old(structure), old(stack)@, Option::None),
            d@,
        ).stack,
{
    if stack.len() == 0 {
        structure.add_directory(d);
        proof {
            lemma_dirs_view(stack@, 0);
        }
    } else {
        let ghost stack0 = stack@;
        let mut top = match stack.pop() {
            Option::Some(t) => t,
            Option::None => {
                proof {
                    assert(false);
                }
                Directory::new()
            },
        };
        top.add_directory(d);
        stack.push(top);
        proof {
            lemma_dirs_view(stack0, 0);
            lemma_dirs_view(stack@, 0);
            assert(dirs_view(stack@, 0) =~= dirs_view(stack0, 0).drop_last().push(
                crate::txml_elements::dir_view(&top),
            ));
        }
    }
}

/// Attach a finished file to the innermost open directory or to the root,
/// as `attach_file` describes.
fn attach_file_exec(structure: &mut TxmlStructure, stack: &mut Vec<Directory>, f: File)
    ensures
        final(structure)@ == attach_file(
            st_of(*old(structure), old(stack)@, Option::None),
            f@,
        ).s,
        dirs_view(final(stack)@, 0) == attach_file(
            st_of(*old(structure), old(stack)@, Option::None),
            f@,
        ).stack,
{
    if stack.len() == 0 {
        structure.add_file(f);
        proof {
            lemma_dirs_view(stack@, 0);
        }
    } else {
        let ghost stack0 = stack@;
        let mut top = match stack.pop() {
            Option::Some(t) => t,
            Option::None => {
                proof {
                    assert(false);
                }
                Directory::new()
            },
        };
        top.add_file(f);
        stack.push(top);
        proof {
            lemma_dirs_view(stack0, 0);
            lemma_dirs_view(stack@, 0);
            assert(dirs_view(stack@, 0) =~= dirs_view(stack0, 0).drop_last().push(
                crate::txml_elements::dir_view(&top),
            ));
        }
    }
}

/// Apply an attribute list to a directory, first to last.
fn apply_dir_attrs(d: &mut Directory, attrs: &Vec<(String, String)>)
    ensures
        final(d)@ == spec_dir_attrs(old(d)@, attrs.deep_view()),
{
    proof {
        assert(attrs.deep_view().skip(0) =~= attrs.deep_view());
    }
    let mut k: usize = 0;
    while k < attrs.len()
        invariant
            0 <= k <= attrs@.len(),
            spec_dir_attrs(old(d)@, attrs.deep_view()) == spec_dir_attrs(
                d@,
                attrs.deep_view().skip(k as int),
            ),
        decreases attrs@.len() - k,
    {
        let ghost rest = attrs.deep_view().skip(k as int);
        proof {
            assert(rest[0] == attrs.deep_view()[k as int]);
            assert(rest.skip(1) =~= attrs.deep_view().skip(k + 1));
        }
        d.process_attribute(attrs[k].0.as_str(), attrs[k].1.as_str());
        k = k + 1;
    }
    proof {
        assert(attrs.deep_view().skip(attrs.deep_view().len() as int) =~= Seq::<(
            Seq<char>,
            Seq<char>,
        )>::empty());
    }
}

/// Apply an attribute list to a file, first to last.
fn apply_file_attrs(f: &mut File, attrs: &Vec<(String, String)>)
    ensures
        final(f)@ == spec_file_attrs(old(f)@, attrs.deep_view()),
{
    proof {
        assert(attrs.deep_view().skip(0) =~= attrs.deep_view());
    }
    let mut k: usize = 0;
    while k < attrs.len()
        invariant
            0 <= k <= attrs@.len(),
            spec_file_attrs(old(f)@, attrs.deep_view()) == spec_file_attrs(
                f@,
                attrs.deep_view().skip(k as int),
            ),
        decreases attrs@.len() - k,
    {
        let ghost rest = attrs.deep_view().skip(k as int);
        proof {
            assert(rest[0] == attrs.deep_view()[k as int]);
            assert(rest.skip(1) =~= attrs.deep_view().skip(k + 1));
        }
        f.process_attribute(attrs[k].0.as_str(), attrs[k].1.as_str());
        k = k + 1;
    }
    proof {
        assert(attrs.deep_view().skip(attrs.deep_view().len() as int) =~= Seq::<(
            Seq<char>,
            Seq<char>,
        )>::empty());
    }
}

impl TxmlStructure {
    /// Parse markup text, taking the values of empty-valued variables from
    /// `answers`, in declaration order; see `spec_parse`.
    pub fn from_txml_str_with_inputs(s: &str, answers: &Vec<String>) -> (r: Result<
        TxmlStructure,
        TxmlProcessorError,
    >)
        ensures
            (match r {
                Result::Ok(st) => spec_parse(s@, answers.deep_view()) == Result::<
                    StructV,
                    TxmlProcessorError,
                >::Ok(st@),
                Result::Err(e) => spec_parse(s@, answers.deep_view()) == Result::<
                    StructV,
                    TxmlProcessorError,
                >::Err(e),
            }),
    {
        let vars = match Self::obtain_variables(s) {
            Result::Ok(v) => v,
            Result::Err(e) => {
                return Result::Err(e);
            },
        };
        let resolved = Self::resolve_variables(&vars, answers);
        let substituted = Self::substitute_variables(s, &resolved);
        Self::build_structure(substituted.as_str())
    }

    /// Parse markup text with no supplied answers: an empty-valued variable
    /// resolves to the empty text.  The interactive path that asks for such
    /// values feeds `from_txml_str_with_inputs` instead.
    pub fn from_txml_str(s: &str) -> (r: Result<TxmlStructure, TxmlProcessorError>)
        ensures
            (match r {
                Result::Ok(st) => spec_parse(s@, Seq::<Seq<char>>::empty()) == Result::<
                    StructV,
                    TxmlProcessorError,
                >::Ok(st@),
                Result::Err(e) => spec_parse(s@, Seq::<Seq<char>>::empty()) == Result::<
                    StructV,
                    TxmlProcessorError,
                >::Err(e),
            }),
    {
        let answers: Vec<String> = Vec::new();
        proof {
            assert(answers.deep_view() =~= Seq::<Seq<char>>::empty());
        }
        Self::from_txml_str_with_inputs(s, &answers)
    }
}

// ---------------------------------------------------------------------------
// Serialization
// ---------------------------------------------------------------------------
/// The fixed declaration and root-open preamble of a rendered document.
pub open spec fn ser_preamble() -> Seq<char> {
    "<?xml version=\"1.0\" encoding=\"UTF-8\" ?>\n\n<Root xmlns:xsi=\"http://www.w3.org/2001/XMLSchema-instance\"\n      xsi:noNamespaceSchemaLocation=\"https://lebastudios.org/xml-schemas/txml_schema.xsd\">\n        "@
}

/// The markup of a whole structure: preamble, metadata element, top-level
/// files, top-level directories, root-close tag.  The `renamable` flag is
/// not rendered: serialization is lossy by design.
pub open spec fn ser_struct(sv: StructV) -> Seq<char> {
    ser_preamble() + ser_meta(sv.metadata) + ser_files(sv.files, 0) + ser_dirs(sv.dirs, 0)
        + "</Root>"@
}

impl TxmlStructure {
    /// Render the structure back into markup text, consuming it; see
    /// `ser_struct`.
    #[verifier::rlimit(100)]
    pub fn into_txml_element(self) -> (r: String)
        ensures
            r@ == ser_struct(self@),
    {
        let ghost sv = self@;
        let mut out = to_owned_str(
            "<?xml version=\"1.0\" encoding=\"UTF-8\" ?>\n\n<Root xmlns:xsi=\"http://www.w3.org/2001/XMLSchema-instance\"\n      xsi:noNamespaceSchemaLocation=\"https://lebastudios.org/xml-schemas/txml_schema.xsd\">\n        ",
        );
        let m = self.metadata.to_markup();
        push_str(&mut out, m.as_str());
        proof {
            assert(out@ =~= ser_preamble() + ser_meta(sv.metadata));
        }
        let mut k: usize = 0;
        while k < self.files.len()
            invariant
                0 <= k <= self.files@.len(),
                sv == self@,
                sv.files.len() == self.files@.len(),
                out@ + ser_files(sv.files, k as int) == ser_preamble() + ser_meta(sv.metadata)
                    + ser_files(sv.files, 0),
            decreases self.files@.len() - k,
        {
            let m = self.files[k].to_markup();
            push_str(&mut out, m.as_str());
            proof {
                assert(sv.files[k as int] == self.files@[k as int]@);
            }
            k = k + 1;
        }
        proof {
            assert(ser_files(sv.files, sv.files.len() as int) =~= Seq::<char>::empty());
            assert(out@ =~= ser_preamble() + ser_meta(sv.metadata) + ser_files(sv.files, 0));
            lemma_dirs_view(self.directories@, 0);
        }
        let mut k: usize = 0;
        while k < self.directories.len()
            invariant
                0 <= k <= self.directories@.len(),
                sv == self@,
                sv.dirs.len() == self.directories@.len(),
                out@ + ser_dirs(sv.dirs, k as int) == ser_preamble() + ser_meta(sv.metadata)
                    + ser_files(sv.files, 0) + ser_dirs(sv.dirs, 0),
            decreases self.directories@.len() - k,
        {
            proof {
                lemma_dirs_view(self.directories@, 0);
            }
            let child: &Directory = &self.directories[k];
            child.write_markup(&mut out);
            proof {
                assert(sv.dirs[k as int] == crate::txml_elements::dir_view(
                    &self.directories@[k as int],
                ));
            }
            k = k + 1;
        }
        push_str(&mut out, "</Root>");
        proof {
            assert(ser_dirs(sv.dirs, sv.dirs.len() as int) =~= Seq::<char>::empty());
            assert(out@ =~= ser_struct(sv));
        }
        out
    }
}

/// Apply an attribute list to a variable, first to last.
fn apply_var_attrs(v: &mut Variable, attrs: &Vec<(String, String)>)
    ensures
        final(v)@ == spec_var_attrs(old(v)@, attrs.deep_view()),
{
    proof {
        assert(attrs.deep_view().skip(0) =~= attrs.deep_view());
    }
    let mut k: usize = 0;
    while k < attrs.len()
        invariant
            0 <= k <= attrs@.len(),
            spec_var_attrs(old(v)@, attrs.deep_view()) == spec_var_attrs(
                v@,
                attrs.deep_view().skip(k as int),
            ),
        decreases attrs@.len() - k,
    {
        let ghost rest = attrs.deep_view().skip(k as int);
        proof {
            assert(rest[0] == attrs.deep_view()[k as int]);
            assert(rest.skip(1) =~= attrs.deep_view().skip(k + 1));
        }
        v.process_attribute(attrs[k].0.as_str(), attrs[k].1.as_str());
        k = k + 1;
    }
    proof {
        assert(attrs.deep_view().skip(attrs.deep_view().len() as int) =~= Seq::<(
            Seq<char>,
            Seq<char>,
        )>::empty());
    }
}

} // verus!
