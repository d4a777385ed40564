//! The event reader: tokenizes raw markup text into a stream of tagged
//! events.  Each element-bearing event carries its classification (Root,
//! Metadata, Variable, Directory, File) and its structural position (Start,
//! Empty, End); text runs, comments and declarations are separate event
//! kinds, and the stream ends with an explicit end-of-input event.
//!
//! The reader is specified by `spec_read_event`, a total function from the
//! document and a cursor to the produced event and the next cursor.

use vstd::prelude::*;
use vstd::string::StrSliceExecFns;

use crate::text::begins_at;
use crate::text::char_at;
use crate::text::find_char;
use crate::text::find_char_from;
use crate::text::is_ws_char;
use crate::text::lemma_find_char_from_props;
use crate::text::starts_with_at;
use crate::text::str_eq;
use crate::text::substr;
use crate::text::to_owned_str;
use crate::text::trim;
use crate::text::trim_str;
use crate::text::ws_char;

verus! {

// ---------------------------------------------------------------------------
// Events
// ---------------------------------------------------------------------------
/// Structural position of an element occurrence.  A `Start` or `Empty`
/// occurrence carries the element's attributes as key/value pairs, in
/// document order.
pub enum ElementState {
    Start(Vec<(String, String)>),
    End,
    Empty(Vec<(String, String)>),
}

/// A tagged markup event.
pub enum TxmlEvent {
    Root(ElementState),
    Metadata(ElementState),
    Variable(ElementState),
    Directory(ElementState),
    File(ElementState),
    Text(String),
    Comment,
    Declaration,
    Eof,
}

/// Reader-level errors.  `UnexpectedElement` (an element outside the five
/// known kinds) is recoverable: the cursor moves past the offending token
/// and every consumer skips it — the lenient policy.  `UnknownError` (a
/// malformed token) is fatal: the cursor moves to the end of the document.
/// `UnsupportedEncoding` (a markup construct outside the dialect, such as a
/// doctype) also moves the cursor past the construct, but the consumers
/// treat it as fatal.
pub enum TxmlReaderError {
    UnexpectedElement,
    UnknownError,
    UnsupportedEncoding,
}

/// Spec-level mirror of `ElementState`.
pub ghost enum StateV {
    Start(Seq<(Seq<char>, Seq<char>)>),
    End,
    Empty(Seq<(Seq<char>, Seq<char>)>),
}

/// Spec-level mirror of `TxmlEvent`.
pub ghost enum EventV {
    Root(StateV),
    Metadata(StateV),
    Variable(StateV),
    Directory(StateV),
    File(StateV),
    Text(Seq<char>),
    Comment,
    Declaration,
    Eof,
}

impl View for ElementState {
    type V = StateV;

    open spec fn view(&self) -> StateV {
        match self {
            ElementState::Start(attrs) => StateV::Start(attrs.deep_view()),
            ElementState::End => StateV::End,
            ElementState::Empty(attrs) => StateV::Empty(attrs.deep_view()),
        }
    }
}

impl View for TxmlEvent {
    type V = EventV;

    open spec fn view(&self) -> EventV {
        match self {
            TxmlEvent::Root(st) => EventV::Root(st@),
            TxmlEvent::Metadata(st) => EventV::Metadata(st@),
            TxmlEvent::Variable(st) => EventV::Variable(st@),
            TxmlEvent::Directory(st) => EventV::Directory(st@),
            TxmlEvent::File(st) => EventV::File(st@),
            TxmlEvent::Text(t) => EventV::Text(t@),
            TxmlEvent::Comment => EventV::Comment,
            TxmlEvent::Declaration => EventV::Declaration,
            TxmlEvent::Eof => EventV::Eof,
        }
    }
}

// ---------------------------------------------------------------------------
// Spec tokenizer
// ---------------------------------------------------------------------------
/// Index of the closing `'>'` of a tag, scanning from `i` and skipping over
/// quoted sections; the length of `s` when the tag never closes.  `q` is the
/// currently open quote character, if any.
pub open spec fn scan_tag_end(s: Seq<char>, i: int, q: Option<char>) -> int
    decreases s.len() - i,
{
    if i < 0 || i >= s.len() {
        s.len() as int
    } else {
        match q {
            Option::Some(qc) => if s[i] == qc {
                scan_tag_end(s, i + 1, Option::None)
            } else {
                scan_tag_end(s, i + 1, Option::Some(qc))
            },
            Option::None => if s[i] == '>' {
                i
            } else if s[i] == '"' || s[i] == '\'' {
                scan_tag_end(s, i + 1, Option::Some(s[i]))
            } else {
                scan_tag_end(s, i + 1, Option::None)
            },
        }
    }
}

/// First index `>= i` whose character is not whitespace; the length of `s`
/// when all are.
pub open spec fn skip_ws(s: Seq<char>, i: int) -> int
    decreases s.len() - i,
{
    if i < 0 || i >= s.len() {
        s.len() as int
    } else if is_ws_char(s[i]) {
        skip_ws(s, i + 1)
    } else {
        i
    }
}

/// First index `>= i` holding `'='` or whitespace: the end of an attribute
/// key.
pub open spec fn find_key_end(s: Seq<char>, i: int) -> int
    decreases s.len() - i,
{
    if i < 0 || i >= s.len() {
        s.len() as int
    } else if s[i] == '=' || is_ws_char(s[i]) {
        i
    } else {
        find_key_end(s, i + 1)
    }
}

/// Parse the attribute list of a tag from index `i` of its inner text `t`:
/// a possibly empty sequence of `key="value"` (or single-quoted) pairs
/// separated by whitespace, with whitespace allowed around `'='`.  `None`
/// when the text is not of that form.
pub open spec fn spec_parse_attrs(t: Seq<char>, i: int) -> Option<Seq<(Seq<char>, Seq<char>)>>
    decreases t.len() - i,
{
    if i < 0 || i > t.len() {
        Option::None
    } else if i == t.len() {
        Option::Some(seq![])
    } else if is_ws_char(t[i]) {
        spec_parse_attrs(t, i + 1)
    } else {
        let ke = find_key_end(t, i);
        if ke == i {
            // An '=' with no key before it.
            Option::None
        } else {
            let key = t.subrange(i, ke);
            let j1 = skip_ws(t, ke);
            if j1 >= t.len() || t[j1] != '=' {
                Option::None
            } else {
                let j2 = skip_ws(t, j1 + 1);
                if j2 >= t.len() || (t[j2] != '"' && t[j2] != '\'') {
                    Option::None
                } else {
                    let ve = find_char_from(t, t[j2], j2 + 1);
                    if ve >= t.len() {
                        // Unterminated attribute value.
                        Option::None
                    } else if i < ve + 1 <= t.len() {
                        match spec_parse_attrs(t, ve + 1) {
                            Option::None => Option::None,
                            Option::Some(rest) => Option::Some(
                                seq![(key, t.subrange(j2 + 1, ve))] + rest,
                            ),
                        }
                    } else {
                        Option::None
                    }
                }
            }
        }
    }
}

/// Classification of an element name with its structural position.
pub open spec fn classify(name: Seq<char>, st: StateV) -> Result<EventV, TxmlReaderError> {
    if name == "Root"@ {
        Result::Ok(EventV::Root(st))
    } else if name == "Metadata"@ {
        Result::Ok(EventV::Metadata(st))
    } else if name == "Variable"@ {
        Result::Ok(EventV::Variable(st))
    } else if name == "Directory"@ {
        Result::Ok(EventV::Directory(st))
    } else if name == "File"@ {
        Result::Ok(EventV::File(st))
    } else {
        Result::Err(TxmlReaderError::UnexpectedElement)
    }
}

/// One tokenization step: the event produced at cursor `pos` and the cursor
/// after it.  A fatal `UnknownError` leaves the cursor at the end of the
/// document.
pub open spec fn spec_read_event(s: Seq<char>, pos: int) -> (Result<EventV, TxmlReaderError>, int) {
    let n = s.len() as int;
    if pos < 0 || pos >= n {
        (Result::Ok(EventV::Eof), n)
    } else if s[pos] != '<' {
        let e = find_char_from(s, '<', pos);
        (Result::Ok(EventV::Text(s.subrange(pos, e))), e)
    } else if starts_with_at(s, seq!['<', '!', '-', '-'], pos) {
        let e = crate::text::find_seq_from(s, seq!['-', '-', '>'], pos + 4);
        if e == n {
            (Result::Err(TxmlReaderError::UnknownError), n)
        } else {
            (Result::Ok(EventV::Comment), e + 3)
        }
    } else if starts_with_at(s, seq!['<', '?'], pos) {
        let e = crate::text::find_seq_from(s, seq!['?', '>'], pos + 2);
        if e == n {
            (Result::Err(TxmlReaderError::UnknownError), n)
        } else {
            (Result::Ok(EventV::Declaration), e + 2)
        }
    } else if starts_with_at(s, seq!['<', '!'], pos) {
        // A doctype or CDATA section: outside the dialect, skipped.
        let e = scan_tag_end(s, pos + 2, Option::None);
        if e == n {
            (Result::Err(TxmlReaderError::UnknownError), n)
        } else {
            (Result::Err(TxmlReaderError::UnsupportedEncoding), e + 1)
        }
    } else if starts_with_at(s, seq!['<', '/'], pos) {
        let e = scan_tag_end(s, pos + 2, Option::None);
        if e == n {
            (Result::Err(TxmlReaderError::UnknownError), n)
        } else {
            (classify(trim(s.subrange(pos + 2, e)), StateV::End), e + 1)
        }
    } else {
        let e = scan_tag_end(s, pos + 1, Option::None);
        if e == n {
            (Result::Err(TxmlReaderError::UnknownError), n)
        } else {
            let inner0 = s.subrange(pos + 1, e);
            let is_empty_el = inner0.len() > 0 && inner0.last() == '/';
            let inner = if is_empty_el {
                inner0.drop_last()
            } else {
                inner0
            };
            if inner.len() == 0 || is_ws_char(inner[0]) {
                (Result::Err(TxmlReaderError::UnknownError), e + 1)
            } else {
                let k = crate::text::count_leading_nonws(inner) as int;
                let name = inner.take(k);
                match spec_parse_attrs(inner, k) {
                    Option::None => (Result::Err(TxmlReaderError::UnknownError), e + 1),
                    Option::Some(attrs) => (
                        classify(
                            name,
                            if is_empty_el {
                                StateV::Empty(attrs)
                            } else {
                                StateV::Start(attrs)
                            },
                        ),
                        e + 1,
                    ),
                }
            }
        }
    }
}

/// The cursor strictly advances while input remains.
pub proof fn lemma_read_event_progress(s: Seq<char>, pos: int)
    requires
        0 <= pos < s.len(),
    ensures
        pos < spec_read_event(s, pos).1 <= s.len(),
{
    let n = s.len() as int;
    if s[pos] != '<' {
        lemma_find_char_from_props(s, '<', pos);
        assert(find_char_from(s, '<', pos) > pos);
    } else if starts_with_at(s, seq!['<', '!', '-', '-'], pos) {
        lemma_find_seq_from_props(s, seq!['-', '-', '>'], pos + 4);
    } else if starts_with_at(s, seq!['<', '?'], pos) {
        lemma_find_seq_from_props(s, seq!['?', '>'], pos + 2);
    } else if starts_with_at(s, seq!['<', '!'], pos) {
        lemma_scan_tag_end_props(s, pos + 2, Option::None);
    } else if starts_with_at(s, seq!['<', '/'], pos) {
        lemma_scan_tag_end_props(s, pos + 2, Option::None);
    } else {
        lemma_scan_tag_end_props(s, pos + 1, Option::None);
    }
}

pub proof fn lemma_scan_tag_end_props(s: Seq<char>, i: int, q: Option<char>)
    requires
        0 <= i <= s.len(),
    ensures
        i <= scan_tag_end(s, i, q) <= s.len(),
    decreases s.len() - i,
{
    if i < s.len() {
        match q {
            Option::Some(qc) => {
                if s[i] == qc {
                    lemma_scan_tag_end_props(s, i + 1, Option::None);
                } else {
                    lemma_scan_tag_end_props(s, i + 1, Option::Some(qc));
                }
            },
            Option::None => {
                if s[i] == '>' {
                } else if s[i] == '"' || s[i] == '\'' {
                    lemma_scan_tag_end_props(s, i + 1, Option::Some(s[i]));
                } else {
                    lemma_scan_tag_end_props(s, i + 1, Option::None);
                }
            },
        }
    }
}

pub proof fn lemma_find_seq_from_props(s: Seq<char>, pat: Seq<char>, from: int)
    requires
        0 <= from <= s.len(),
        pat.len() >= 1,
    ensures
        from <= crate::text::find_seq_from(s, pat, from) <= s.len(),
        crate::text::find_seq_from(s, pat, from) < s.len() ==> crate::text::find_seq_from(
            s,
            pat,
            from,
        ) + pat.len() <= s.len(),
    decreases s.len() - from,
{
    if from <= s.len() - pat.len() && s.subrange(from, from + pat.len()) != pat {
        lemma_find_seq_from_props(s, pat, from + 1);
    }
}

pub proof fn lemma_skip_ws_props(s: Seq<char>, i: int)
    requires
        0 <= i <= s.len(),
    ensures
        i <= skip_ws(s, i) <= s.len(),
        skip_ws(s, i) < s.len() ==> !is_ws_char(s[skip_ws(s, i)]),
        forall|j: int| i <= j < skip_ws(s, i) ==> is_ws_char(#[trigger] s[j]),
    decreases s.len() - i,
{
    if i < s.len() && is_ws_char(s[i]) {
        lemma_skip_ws_props(s, i + 1);
    }
}

pub proof fn lemma_find_key_end_props(s: Seq<char>, i: int)
    requires
        0 <= i <= s.len(),
    ensures
        i <= find_key_end(s, i) <= s.len(),
        find_key_end(s, i) < s.len() ==> (s[find_key_end(s, i)] == '=' || is_ws_char(
            s[find_key_end(s, i)],
        )),
        forall|j: int|
            i <= j < find_key_end(s, i) ==> !(#[trigger] s[j] == '=' || is_ws_char(s[j])),
    decreases s.len() - i,
{
    if i < s.len() && !(s[i] == '=' || is_ws_char(s[i])) {
        lemma_find_key_end_props(s, i + 1);
    }
}

} // verus!

verus! {

// ---------------------------------------------------------------------------
// Executable reader
// ---------------------------------------------------------------------------
/// Exec mirror of `scan_tag_end` starting outside any quote.
fn scan_tag_end_exec(s: &str, i: usize) -> (r: usize)
    requires
        i <= s@.len(),
    ensures
        r == scan_tag_end(s@, i as int, Option::<char>::None),
        i <= r <= s@.len(),
{
    proof {
        lemma_scan_tag_end_props(s@, i as int, Option::<char>::None);
    }
    let n = s.unicode_len();
    let mut j: usize = i;
    let mut quote: Option<char> = Option::None;
    while j < n
        invariant
            i <= j <= n,
            scan_tag_end(s@, i as int, Option::<char>::None) == scan_tag_end(
                s@,
                j as int,
                quote,
            ),
        decreases n - j,
    {
        let c = s.get_char(j);
        match quote {
            Option::Some(qc) => {
                if c == qc {
                    quote = Option::None;
                }
            },
            Option::None => {
                if c == '>' {
                    return j;
                } else if c == '"' || c == '\'' {
                    quote = Option::Some(c);
                }
            },
        }
        j = j + 1;
    }
    n
}

/// Exec mirror of `skip_ws`.
fn skip_ws_exec(s: &str, i: usize) -> (r: usize)
    requires
        i <= s@.len(),
    ensures
        r == skip_ws(s@, i as int),
        i <= r <= s@.len(),
{
    proof {
        lemma_skip_ws_props(s@, i as int);
    }
    let n = s.unicode_len();
    let mut j: usize = i;
    while j < n
        invariant
            i <= j <= n,
            skip_ws(s@, i as int) == skip_ws(s@, j as int),
        decreases n - j,
    {
        if !ws_char(s.get_char(j)) {
            return j;
        }
        j = j + 1;
    }
    n
}

/// Exec mirror of `find_key_end`.
fn find_key_end_exec(s: &str, i: usize) -> (r: usize)
    requires
        i <= s@.len(),
    ensures
        r == find_key_end(s@, i as int),
        i <= r <= s@.len(),
{
    proof {
        lemma_find_key_end_props(s@, i as int);
    }
    let n = s.unicode_len();
    let mut j: usize = i;
    while j < n
        invariant
            i <= j <= n,
            find_key_end(s@, i as int) == find_key_end(s@, j as int),
        decreases n - j,
    {
        let c = s.get_char(j);
        if c == '=' || ws_char(c) {
            return j;
        }
        j = j + 1;
    }
    n
}

/// Exec mirror of `find_seq_from` for a non-empty pattern.
fn find_seq_exec(s: &str, pat: &str, from: usize) -> (r: usize)
    requires
        from <= s@.len(),
        pat@.len() >= 1,
    ensures
        r == crate::text::find_seq_from(s@, pat@, from as int),
        from <= r <= s@.len(),
        r < s@.len() ==> r + pat@.len() <= s@.len(),
{
    proof {
        lemma_find_seq_from_props(s@, pat@, from as int);
    }
    let n = s.unicode_len();
    let p = pat.unicode_len();
    if p > n || from > n - p {
        return n;
    }
    let mut j: usize = from;
    while j <= n - p
        invariant
            from <= j,
            p <= n,
            j <= n - p + 1,
            crate::text::find_seq_from(s@, pat@, from as int) == crate::text::find_seq_from(
                s@,
                pat@,
                j as int,
            ),
        decreases n - j,
    {
        if begins_at(s, pat, j) {
            return j;
        }
        j = j + 1;
    }
    n
}

/// Exec mirror of `spec_parse_attrs`.
fn parse_attrs_exec(t: &str, i: usize) -> (r: Option<Vec<(String, String)>>)
    requires
        i <= t@.len(),
    ensures
        (match r {
            Option::Some(v) => spec_parse_attrs(t@, i as int) == Option::Some(v.deep_view()),
            Option::None => spec_parse_attrs(t@, i as int) is None,
        }),
    decreases t@.len() - i,
{
    let n = t.unicode_len();
    if i == n {
        let r: Vec<(String, String)> = Vec::new();
        proof {
            assert(r.deep_view() =~= Seq::<(Seq<char>, Seq<char>)>::empty());
        }
        return Option::Some(r);
    }
    if ws_char(t.get_char(i)) {
        return parse_attrs_exec(t, i + 1);
    }
    let ke = find_key_end_exec(t, i);
    if ke == i {
        return Option::None;
    }
    let key = to_owned_str(substr(t, i, ke));
    let j1 = skip_ws_exec(t, ke);
    if j1 == n || t.get_char(j1) != '=' {
        return Option::None;
    }
    let j2 = skip_ws_exec(t, j1 + 1);
    if j2 == n {
        return Option::None;
    }
    let q = t.get_char(j2);
    if q != '"' && q != '\'' {
        return Option::None;
    }
    let ve = find_char(t, q, j2 + 1);
    proof {
        lemma_find_char_from_props(t@, q, j2 + 1);
    }
    if ve == n {
        return Option::None;
    }
    let value = to_owned_str(substr(t, j2 + 1, ve));
    match parse_attrs_exec(t, ve + 1) {
        Option::None => Option::None,
        Option::Some(rest) => {
            let mut out = rest;
            let ghost rest_v = out.deep_view();
            out.insert(0, (key, value));
            proof {
                assert(out.deep_view() =~= seq![(key@, value@)] + rest_v);
            }
            Option::Some(out)
        },
    }
}

/// The event reader.  It owns a copy of the document text and an internal
/// cursor; each `read_event` call classifies the token at the cursor and
/// advances past it.
pub struct TxmlReader {
    doc: String,
    pos: usize,
}

impl TxmlReader {
    /// The document being read.
    pub closed spec fn doc_view(&self) -> Seq<char> {
        self.doc@
    }

    /// The current cursor position.
    pub closed spec fn cursor(&self) -> int {
        self.pos as int
    }

    /// The cursor never leaves the document.
    pub closed spec fn wf(&self) -> bool {
        self.pos <= self.doc@.len()
    }

    /// A reader over `s`, positioned at its start.
    pub fn from_str(s: &str) -> (r: TxmlReader)
        ensures
            r.doc_view() == s@,
            r.cursor() == 0,
            r.wf(),
    {
        TxmlReader { doc: to_owned_str(s), pos: 0 }
    }

    /// Classify the element name `name` with state `st`.
    fn classify_exec(name: &str, st: ElementState) -> (r: Result<TxmlEvent, TxmlReaderError>)
        ensures
            (match r {
                Result::Ok(ev) => classify(name@, st@) == Result::<EventV, TxmlReaderError>::Ok(
                    ev@,
                ),
                Result::Err(e) => classify(name@, st@) == Result::<EventV, TxmlReaderError>::Err(
                    e,
                ),
            }),
    {
        if str_eq(name, "Root") {
            Result::Ok(TxmlEvent::Root(st))
        } else if str_eq(name, "Metadata") {
            Result::Ok(TxmlEvent::Metadata(st))
        } else if str_eq(name, "Variable") {
            Result::Ok(TxmlEvent::Variable(st))
        } else if str_eq(name, "Directory") {
            Result::Ok(TxmlEvent::Directory(st))
        } else if str_eq(name, "File") {
            Result::Ok(TxmlEvent::File(st))
        } else {
            Result::Err(TxmlReaderError::UnexpectedElement)
        }
    }

    /// Read the next event and advance the cursor, as `spec_read_event`
    /// describes.
    pub fn read_event(&mut self) -> (r: Result<TxmlEvent, TxmlReaderError>)
        requires
            old(self).wf(),
        ensures
            final(self).wf(),
            final(self).doc_view() == old(self).doc_view(),
            (match r {
                Result::Ok(ev) => spec_read_event(old(self).doc_view(), old(self).cursor())
                    == (Result::<EventV, TxmlReaderError>::Ok(ev@), final(self).cursor()),
                Result::Err(e) => spec_read_event(old(self).doc_view(), old(self).cursor())
                    == (Result::<EventV, TxmlReaderError>::Err(e), final(self).cursor()),
            }),
    {
        let n = self.doc.as_str().unicode_len();
        let pos = self.pos;
        if pos >= n {
            self.pos = n;
            return Result::Ok(TxmlEvent::Eof);
        }
        let s = self.doc.as_str();
        if char_at(s, pos) != '<' {
            let e = find_char(s, '<', pos);
            let run = to_owned_str(substr(s, pos, e));
            self.pos = e;
            return Result::Ok(TxmlEvent::Text(run));
        }
        proof {
            reveal_strlit("<!--");
            reveal_strlit("-->");
            reveal_strlit("<?");
            reveal_strlit("?>");
            reveal_strlit("<!");
            reveal_strlit("</");
            assert("<!--"@ =~= seq!['<', '!', '-', '-']);
            assert("-->"@ =~= seq!['-', '-', '>']);
            assert("<?"@ =~= seq!['<', '?']);
            assert("?>"@ =~= seq!['?', '>']);
            assert("<!"@ =~= seq!['<', '!']);
            assert("</"@ =~= seq!['<', '/']);
        }
        if begins_at(s, "<!--", pos) {
            let e = find_seq_exec(s, "-->", pos + 4);
            if e == n {
                self.pos = n;
                return Result::Err(TxmlReaderError::UnknownError);
            }
            self.pos = e + 3;
            return Result::Ok(TxmlEvent::Comment);
        }
        if begins_at(s, "<?", pos) {
            let e = find_seq_exec(s, "?>", pos + 2);
            if e == n {
                self.pos = n;
                return Result::Err(TxmlReaderError::UnknownError);
            }
            self.pos = e + 2;
            return Result::Ok(TxmlEvent::Declaration);
        }
        if begins_at(s, "<!", pos) {
            let e = scan_tag_end_exec(s, pos + 2);
            if e == n {
                self.pos = n;
                return Result::Err(TxmlReaderError::UnknownError);
            }
            self.pos = e + 1;
            return Result::Err(TxmlReaderError::UnsupportedEncoding);
        }
        if begins_at(s, "</", pos) {
            let e = scan_tag_end_exec(s, pos + 2);
            if e == n {
                self.pos = n;
                return Result::Err(TxmlReaderError::UnknownError);
            }
            let name = trim_str(substr(s, pos + 2, e));
            self.pos = e + 1;
            return Self::classify_exec(name, ElementState::End);
        }
        let e = scan_tag_end_exec(s, pos + 1);
        if e == n {
            self.pos = n;
            return Result::Err(TxmlReaderError::UnknownError);
        }
        let inner_full = substr(s, pos + 1, e);
        let inner_full_len = inner_full.unicode_len();
        let is_empty_el = inner_full_len > 0 && char_at(inner_full, inner_full_len - 1) == '/';
        let inner = if is_empty_el {
            substr(inner_full, 0, inner_full_len - 1)
        } else {
            inner_full
        };
        proof {
            let inner0 = s@.subrange(pos + 1, e as int);
            if is_empty_el {
                assert(inner@ =~= inner0.drop_last());
            }
        }
        let inner_len = inner.unicode_len();
        if inner_len == 0 || ws_char(char_at(inner, 0)) {
            self.pos = e + 1;
            return Result::Err(TxmlReaderError::UnknownError);
        }
        let k = nonws_prefix_len(inner);
        let name = substr(inner, 0, k);
        match parse_attrs_exec(inner, k) {
            Option::None => {
                self.pos = e + 1;
                Result::Err(TxmlReaderError::UnknownError)
            },
            Option::Some(attrs) => {
                self.pos = e + 1;
                let st = if is_empty_el {
                    ElementState::Empty(attrs)
                } else {
                    ElementState::Start(attrs)
                };
                proof {
                    assert(name@ =~= inner@.take(crate::text::count_leading_nonws(inner@) as int));
                }
                Self::classify_exec(name, st)
            },
        }
    }
}

/// Length of the leading run of non-whitespace characters.
fn nonws_prefix_len(s: &str) -> (r: usize)
    ensures
        r == crate::text::count_leading_nonws(s@),
        r <= s@.len(),
{
    let n = s.unicode_len();
    let mut i: usize = 0;
    while i < n
        invariant
            0 <= i <= n,
            forall|j: int| 0 <= j < i ==> !is_ws_char(#[trigger] s@[j]),
        decreases n - i,
    {
        if ws_char(s.get_char(i)) {
            proof {
                crate::text::lemma_count_leading_nonws_is(s@, i as int);
            }
            return i;
        }
        i = i + 1;
    }
    proof {
        crate::text::lemma_count_leading_nonws_is(s@, n as int);
    }
    n
}

} // verus!
