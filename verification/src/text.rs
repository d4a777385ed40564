//! Character-sequence utilities shared by the tokenizer, the variable
//! resolver, the content normalizer and the command splitter.  Every exec
//! function is specified against a spec function over `Seq<char>`.

use vstd::prelude::*;
use vstd::string::StrSliceExecFns;
use vstd::string::StringExecFns;

verus! {

/// The Unicode `White_Space` property, the set recognised by
/// `char::is_whitespace`.
pub open spec fn is_ws_char(c: char) -> bool {
    let u = c as u32;
    (0x9 <= u && u <= 0xD) || u == 0x20 || u == 0x85 || u == 0xA0 || u == 0x1680 || (0x2000 <= u
        && u <= 0x200A) || u == 0x2028 || u == 0x2029 || u == 0x202F || u == 0x205F || u == 0x3000
}

/// Every character is whitespace (true of the empty sequence).
pub open spec fn is_blank(s: Seq<char>) -> bool {
    forall|i: int| 0 <= i < s.len() ==> is_ws_char(#[trigger] s[i])
}

/// Number of leading whitespace characters.
pub open spec fn count_leading_ws(s: Seq<char>) -> nat
    decreases s.len(),
{
    if s.len() == 0 || !is_ws_char(s[0]) {
        0
    } else {
        1 + count_leading_ws(s.skip(1))
    }
}

/// Number of trailing whitespace characters.
pub open spec fn count_trailing_ws(s: Seq<char>) -> nat
    decreases s.len(),
{
    if s.len() == 0 || !is_ws_char(s.last()) {
        0
    } else {
        1 + count_trailing_ws(s.drop_last())
    }
}

/// The sequence without its leading whitespace.
pub open spec fn trim_start(s: Seq<char>) -> Seq<char> {
    s.skip(count_leading_ws(s) as int)
}

/// The sequence without its trailing whitespace.
pub open spec fn trim_end(s: Seq<char>) -> Seq<char> {
    s.take(s.len() - count_trailing_ws(s))
}

/// The sequence without leading and trailing whitespace.
pub open spec fn trim(s: Seq<char>) -> Seq<char> {
    trim_end(trim_start(s))
}

/// The pattern `pat` occurs in `s` starting at index `i`.
pub open spec fn starts_with_at(s: Seq<char>, pat: Seq<char>, i: int) -> bool {
    0 <= i && i + pat.len() <= s.len() && s.subrange(i, i + pat.len()) == pat
}

/// `pat` occurs somewhere in `s`.
pub open spec fn contains_seq(s: Seq<char>, pat: Seq<char>) -> bool {
    exists|i: int| starts_with_at(s, pat, i)
}

/// `c` occurs in `s`.
pub open spec fn contains_char(s: Seq<char>, c: char) -> bool {
    exists|i: int| 0 <= i < s.len() && s[i] == c
}

/// Index of the first occurrence of `c` at or after `from`; `s.len()` when
/// there is none.
pub open spec fn find_char_from(s: Seq<char>, c: char, from: int) -> int
    decreases s.len() - from,
{
    if from < 0 {
        find_char_from(s, c, 0)
    } else if from >= s.len() {
        s.len() as int
    } else if s[from] == c {
        from
    } else {
        find_char_from(s, c, from + 1)
    }
}

/// Index of the first occurrence of `pat` at or after `from`; `s.len()` when
/// there is none.  `pat` is assumed non-empty by callers; for an empty `pat`
/// the first admissible index is returned.
pub open spec fn find_seq_from(s: Seq<char>, pat: Seq<char>, from: int) -> int
    decreases s.len() - from,
{
    if pat.len() == 0 {
        if from < 0 {
            0
        } else if from > s.len() {
            s.len() as int
        } else {
            from
        }
    } else if from < 0 {
        find_seq_from(s, pat, 0)
    } else if from > s.len() - pat.len() {
        s.len() as int
    } else if s.subrange(from, from + pat.len()) == pat {
        from
    } else {
        find_seq_from(s, pat, from + 1)
    }
}

/// Replace every occurrence of `pat` in `s` by `rep`, scanning left to right
/// over non-overlapping occurrences, as `str::replace` does.  When `pat` is
/// empty, `s` is returned unchanged.
pub open spec fn replace_all(s: Seq<char>, pat: Seq<char>, rep: Seq<char>) -> Seq<char>
    decreases s.len(),
{
    if pat.len() == 0 {
        s
    } else if s.len() < pat.len() {
        s
    } else if s.take(pat.len() as int) == pat {
        rep + replace_all(s.skip(pat.len() as int), pat, rep)
    } else {
        seq![s[0]] + replace_all(s.skip(1), pat, rep)
    }
}

/// Number of leading characters that are not whitespace.
pub open spec fn count_leading_nonws(s: Seq<char>) -> nat
    decreases s.len(),
{
    if s.len() == 0 || is_ws_char(s[0]) {
        0
    } else {
        1 + count_leading_nonws(s.skip(1))
    }
}

/// Split on a separator character; the separator is dropped and empty
/// segments are kept, as `str::split` does.
pub open spec fn split_char_seq(s: Seq<char>, sep: char) -> Seq<Seq<char>>
    decreases s.len(),
{
    let j = find_char_from(s, sep, 0);
    if 0 <= j < s.len() {
        seq![s.take(j)] + split_char_seq(s.skip(j + 1), sep)
    } else {
        seq![s]
    }
}

/// Split into maximal runs of non-whitespace characters, as
/// `str::split_whitespace` does.
pub open spec fn split_ws_seq(s: Seq<char>) -> Seq<Seq<char>>
    decreases s.len(),
{
    if s.len() == 0 {
        seq![]
    } else if is_ws_char(s[0]) {
        split_ws_seq(s.skip(1))
    } else {
        let k = count_leading_nonws(s) as int;
        if 1 <= k <= s.len() {
            seq![s.take(k)] + split_ws_seq(s.skip(k))
        } else {
            seq![s]
        }
    }
}

/// Join the parts with a newline between consecutive parts.
pub open spec fn join_nl(parts: Seq<Seq<char>>) -> Seq<char>
    decreases parts.len(),
{
    if parts.len() == 0 {
        seq![]
    } else if parts.len() == 1 {
        parts[0]
    } else {
        parts[0] + seq!['\n'] + join_nl(parts.skip(1))
    }
}

/// A line without its final carriage return, when it has one: `str::lines`
/// treats `\r\n` as one terminator.
pub open spec fn strip_cr(l: Seq<char>) -> Seq<char> {
    if l.len() > 0 && l.last() == '\r' {
        l.drop_last()
    } else {
        l
    }
}

/// The segments of `s` between newlines, before carriage-return stripping;
/// a final terminator produces no empty last segment.
pub open spec fn raw_lines_of(s: Seq<char>) -> Seq<Seq<char>> {
    let parts = split_char_seq(s, '\n');
    if s.len() > 0 && s.last() == '\n' {
        parts.drop_last()
    } else {
        parts
    }
}

/// The lines of `s`, as `str::lines` yields them: split on `'\n'`, one
/// trailing `'\r'` stripped from each line, and a final terminator
/// producing no empty last line.
pub open spec fn lines_of(s: Seq<char>) -> Seq<Seq<char>> {
    raw_lines_of(s).map_values(|l: Seq<char>| strip_cr(l))
}

/// The character finder steps over characters that are not the target.
pub proof fn lemma_find_char_range(s: Seq<char>, c: char, i: int, n: int)
    requires
        0 <= i,
        0 <= n,
        i + n <= s.len(),
        forall|k: int| i <= k < i + n ==> #[trigger] s[k] != c,
    ensures
        find_char_from(s, c, i) == find_char_from(s, c, i + n),
    decreases n,
{
    if n > 0 {
        lemma_find_char_range(s, c, i + 1, n - 1);
    }
}

pub proof fn lemma_find_char_from_props(s: Seq<char>, c: char, from: int)
    requires
        0 <= from <= s.len(),
    ensures
        from <= find_char_from(s, c, from) <= s.len(),
        find_char_from(s, c, from) < s.len() ==> s[find_char_from(s, c, from)] == c,
        forall|j: int| from <= j < find_char_from(s, c, from) ==> s[j] != c,
    decreases s.len() - from,
{
    if from < s.len() && s[from] != c {
        lemma_find_char_from_props(s, c, from + 1);
    }
}

/// Appending a separator appends one empty segment.
pub proof fn lemma_split_snoc_sep(x: Seq<char>, sep: char)
    ensures
        split_char_seq(x + seq![sep], sep) == split_char_seq(x, sep).push(Seq::<char>::empty()),
    decreases x.len(),
{
    let y = x + seq![sep];
    let jx = find_char_from(x, sep, 0);
    let jy = find_char_from(y, sep, 0);
    lemma_find_char_from_props(x, sep, 0);
    lemma_find_char_from_props(y, sep, 0);
    if jx == x.len() {
        // x holds no separator: the appended one is the first.
        assert(jy == x.len() as int) by {
            assert(forall|k: int| 0 <= k < x.len() ==> #[trigger] y[k] == x[k]);
            lemma_find_char_range(y, sep, 0, x.len() as int);
            assert(y[x.len() as int] == sep);
        }
        assert(y.take(jy) =~= x);
        assert(y.skip(jy + 1) =~= Seq::<char>::empty());
        assert(split_char_seq(y.skip(jy + 1), sep) =~= seq![Seq::<char>::empty()]);
        assert(split_char_seq(y, sep) =~= split_char_seq(x, sep).push(Seq::<char>::empty()));
    } else {
        assert(jy == jx) by {
            assert(forall|k: int| 0 <= k < jx ==> #[trigger] y[k] != sep) by {
                assert(forall|k: int| 0 <= k < jx ==> #[trigger] y[k] == x[k]);
            }
            lemma_find_char_range(y, sep, 0, jx);
            assert(y[jx] == x[jx]);
        }
        assert(y.take(jy) =~= x.take(jx));
        assert(y.skip(jy + 1) =~= x.skip(jx + 1) + seq![sep]);
        lemma_split_snoc_sep(x.skip(jx + 1), sep);
        assert(split_char_seq(y, sep) =~= split_char_seq(x, sep).push(Seq::<char>::empty()));
    }
}

/// A split never yields an empty list of segments.
pub proof fn lemma_split_len_ge1(s: Seq<char>, sep: char)
    ensures
        split_char_seq(s, sep).len() >= 1,
    decreases s.len(),
{
    let j = find_char_from(s, sep, 0);
    if 0 <= j < s.len() {
        lemma_split_len_ge1(s.skip(j + 1), sep);
    }
}

/// Joining the segments with newlines gives the text back.
pub proof fn lemma_join_split(x: Seq<char>)
    ensures
        join_nl(split_char_seq(x, '\n')) == x,
    decreases x.len(),
{
    let j = find_char_from(x, '\n', 0);
    lemma_find_char_from_props(x, '\n', 0);
    if 0 <= j < x.len() {
        let rest = split_char_seq(x.skip(j + 1), '\n');
        lemma_join_split(x.skip(j + 1));
        lemma_split_len_ge1(x.skip(j + 1), '\n');
        let parts = seq![x.take(j)] + rest;
        assert(split_char_seq(x, '\n') == parts);
        assert(parts.len() >= 2);
        assert(parts[0] == x.take(j));
        assert(parts.skip(1) =~= rest);
        assert(join_nl(parts) == x.take(j) + seq!['\n'] + join_nl(rest));
        assert(x.take(j) + seq!['\n'] + x.skip(j + 1) =~= x);
    }
}

/// A character absent from the text is absent from every segment of its
/// split.
pub proof fn lemma_split_no_char(s: Seq<char>, sep: char, ch: char)
    requires
        forall|i: int| 0 <= i < s.len() ==> #[trigger] s[i] != ch,
    ensures
        forall|k: int, j: int|
            0 <= k < split_char_seq(s, sep).len() && 0 <= j < split_char_seq(s, sep)[k].len()
                ==> #[trigger] split_char_seq(s, sep)[k][j] != ch,
    decreases s.len(),
{
    let parts = split_char_seq(s, sep);
    let j0 = find_char_from(s, sep, 0);
    lemma_find_char_from_props(s, sep, 0);
    if 0 <= j0 < s.len() {
        assert(forall|i: int|
            0 <= i < s.skip(j0 + 1).len() ==> #[trigger] s.skip(j0 + 1)[i] != ch) by {
            assert(forall|i: int|
                0 <= i < s.skip(j0 + 1).len() ==> #[trigger] s.skip(j0 + 1)[i] == s[j0 + 1 + i]);
        }
        lemma_split_no_char(s.skip(j0 + 1), sep, ch);
        let rest = split_char_seq(s.skip(j0 + 1), sep);
        assert forall|k: int, j: int|
            0 <= k < parts.len() && 0 <= j < parts[k].len() implies #[trigger] parts[k][j]
            != ch by {
            if k == 0 {
                assert(parts[0] == s.take(j0));
                assert(s.take(j0)[j] == s[j]);
            } else {
                assert(parts[k] == rest[k - 1]);
            }
        }
    } else {
        assert forall|k: int, j: int|
            0 <= k < parts.len() && 0 <= j < parts[k].len() implies #[trigger] parts[k][j]
            != ch by {
            assert(parts[k] == s);
        }
    }
}

/// Replacement consumes every marker: when every occurrence of `pat`'s
/// first character in `s` starts a full occurrence of `pat`, and `rep` is
/// free of that character, the result is free of it — so no occurrence of
/// `pat` survives and none can form across replacement boundaries.
pub proof fn lemma_replace_all_removes_lead(s: Seq<char>, pat: Seq<char>, rep: Seq<char>)
    requires
        pat.len() > 0,
        forall|i: int| 1 <= i < pat.len() ==> #[trigger] pat[i] != pat[0],
        forall|i: int| 0 <= i < rep.len() ==> #[trigger] rep[i] != pat[0],
        forall|i: int| 0 <= i < s.len() && #[trigger] s[i] == pat[0] ==> starts_with_at(s, pat, i),
    ensures
        forall|i: int|
            0 <= i < replace_all(s, pat, rep).len() ==> #[trigger] replace_all(s, pat, rep)[i]
                != pat[0],
    decreases s.len(),
{
    let p = pat.len() as int;
    let r = replace_all(s, pat, rep);
    if s.len() < p {
        assert forall|i: int| 0 <= i < s.len() implies s[i] != pat[0] by {
            if s[i] == pat[0] {
                assert(starts_with_at(s, pat, i));
            }
        }
        assert(r == s);
    } else if s.take(p) == pat {
        let tail = s.skip(p);
        assert forall|i: int| 0 <= i < tail.len() && tail[i] == pat[0] implies starts_with_at(
            tail,
            pat,
            i,
        ) by {
            assert(tail[i] == s[p + i]);
            assert(starts_with_at(s, pat, p + i));
            assert(tail.subrange(i, i + p) =~= s.subrange(p + i, p + i + p));
        }
        lemma_replace_all_removes_lead(tail, pat, rep);
        let rt = replace_all(tail, pat, rep);
        assert(r == rep + rt);
        assert forall|i: int| 0 <= i < r.len() implies #[trigger] r[i] != pat[0] by {
            if i < rep.len() {
                assert(r[i] == rep[i]);
            } else {
                assert(r[i] == rt[i - rep.len()]);
            }
        }
    } else {
        assert(s[0] != pat[0]) by {
            if s[0] == pat[0] {
                assert(starts_with_at(s, pat, 0));
                assert(s.subrange(0, p) =~= s.take(p));
            }
        }
        let tail = s.skip(1);
        assert forall|i: int| 0 <= i < tail.len() && tail[i] == pat[0] implies starts_with_at(
            tail,
            pat,
            i,
        ) by {
            assert(tail[i] == s[1 + i]);
            assert(starts_with_at(s, pat, 1 + i));
            assert(tail.subrange(i, i + p) =~= s.subrange(1 + i, 1 + i + p));
        }
        lemma_replace_all_removes_lead(tail, pat, rep);
        let rt = replace_all(tail, pat, rep);
        assert(r == seq![s[0]] + rt);
        assert forall|i: int| 0 <= i < r.len() implies #[trigger] r[i] != pat[0] by {
            if i == 0 {
                assert(r[0] == s[0]);
            } else {
                assert(r[i] == rt[i - 1]);
            }
        }
    }
}

pub proof fn lemma_count_leading_ws_le(s: Seq<char>)
    ensures
        count_leading_ws(s) <= s.len(),
    decreases s.len(),
{
    if s.len() > 0 && is_ws_char(s[0]) {
        lemma_count_leading_ws_le(s.skip(1));
    }
}

pub proof fn lemma_count_leading_ws_is(s: Seq<char>, i: int)
    requires
        0 <= i <= s.len(),
        forall|j: int| 0 <= j < i ==> is_ws_char(#[trigger] s[j]),
        i < s.len() ==> !is_ws_char(s[i]),
    ensures
        count_leading_ws(s) == i,
    decreases i,
{
    if i == 0 {
    } else {
        assert(is_ws_char(s[0]));
        lemma_count_leading_ws_is(s.skip(1), i - 1);
    }
}

pub proof fn lemma_count_leading_nonws_is(s: Seq<char>, i: int)
    requires
        0 <= i <= s.len(),
        forall|j: int| 0 <= j < i ==> !is_ws_char(#[trigger] s[j]),
        i < s.len() ==> is_ws_char(s[i]),
    ensures
        count_leading_nonws(s) == i,
    decreases i,
{
    if i == 0 {
    } else {
        lemma_count_leading_nonws_is(s.skip(1), i - 1);
    }
}

pub proof fn lemma_count_trailing_ws_props(s: Seq<char>)
    ensures
        count_trailing_ws(s) <= s.len(),
        forall|j: int|
            s.len() - count_trailing_ws(s) <= j < s.len() ==> is_ws_char(#[trigger] s[j]),
        count_trailing_ws(s) < s.len() ==> !is_ws_char(s[s.len() - count_trailing_ws(s) - 1]),
    decreases s.len(),
{
    if s.len() > 0 && is_ws_char(s.last()) {
        let d = s.drop_last();
        lemma_count_trailing_ws_props(d);
        assert forall|j: int|
            s.len() - count_trailing_ws(s) <= j < s.len() implies is_ws_char(#[trigger] s[j]) by {
            if j < s.len() - 1 {
                assert(s[j] == d[j]);
                assert(is_ws_char(d[j]));
            } else {
                assert(s[j] == s.last());
            }
        }
    }
}

pub proof fn lemma_count_trailing_ws_is(s: Seq<char>, k: int)
    requires
        0 <= k <= s.len(),
        forall|j: int| s.len() - k <= j < s.len() ==> is_ws_char(#[trigger] s[j]),
        k < s.len() ==> !is_ws_char(s[s.len() - k - 1]),
    ensures
        count_trailing_ws(s) == k,
    decreases k,
{
    if k == 0 {
    } else {
        assert(is_ws_char(s.last()));
        lemma_count_trailing_ws_is(s.drop_last(), k - 1);
    }
}

} // verus!

verus! {

// ---------------------------------------------------------------------------
// Executable counterparts
// ---------------------------------------------------------------------------
/// Whether `c` has the Unicode `White_Space` property.
pub fn ws_char(c: char) -> (r: bool)
    ensures
        r == is_ws_char(c),
{
    let u = c as u32;
    (0x9 <= u && u <= 0xD) || u == 0x20 || u == 0x85 || u == 0xA0 || u == 0x1680 || (0x2000 <= u
        && u <= 0x200A) || u == 0x2028 || u == 0x2029 || u == 0x202F || u == 0x205F || u == 0x3000
}

/// Length of `s` in characters.
pub fn len_chars(s: &str) -> (n: usize)
    ensures
        n == s@.len(),
{
    s.unicode_len()
}

/// The character of `s` at index `i`.
pub fn char_at(s: &str, i: usize) -> (c: char)
    requires
        i < s@.len(),
    ensures
        c == s@[i as int],
{
    s.get_char(i)
}

/// The slice of `s` from character `from` (inclusive) to `to` (exclusive).
pub fn substr(s: &str, from: usize, to: usize) -> (r: &str)
    requires
        from <= to <= s@.len(),
    ensures
        r@ == s@.subrange(from as int, to as int),
{
    s.substring_char(from, to)
}

/// A fresh `String` holding the same characters as `s`.
pub fn to_owned_str(s: &str) -> (r: String)
    ensures
        r@ == s@,
{
    String::from_str(s)
}

/// Append `piece` to `out`.
pub fn push_str(out: &mut String, piece: &str)
    ensures
        final(out)@ == old(out)@ + piece@,
{
    out.append(piece)
}

/// Whether `a` and `b` hold the same characters.
pub fn str_eq(a: &str, b: &str) -> (r: bool)
    ensures
        r == (a@ == b@),
{
    let a_len = a.unicode_len();
    let b_len = b.unicode_len();
    if a_len != b_len {
        assert(a@ != b@) by {
            assert(a@.len() != b@.len());
        }
        return false;
    }
    let mut i: usize = 0;
    while i < a_len
        invariant
            0 <= i <= a_len,
            forall|j: int| 0 <= j < i ==> a@[j] == b@[j],
        decreases a_len - i,
    {
        if a.get_char(i) != b.get_char(i) {
            assert(a@ != b@);
            return false;
        }
        i = i + 1;
    }
    assert(a@ =~= b@);
    true
}

/// Whether every character of `s` is whitespace.
pub fn blank_str(s: &str) -> (r: bool)
    ensures
        r == is_blank(s@),
{
    let n = s.unicode_len();
    let mut i: usize = 0;
    while i < n
        invariant
            0 <= i <= n,
            forall|j: int| 0 <= j < i ==> is_ws_char(#[trigger] s@[j]),
        decreases n - i,
    {
        if !ws_char(s.get_char(i)) {
            assert(!is_blank(s@));
            return false;
        }
        i = i + 1;
    }
    true
}

/// First index `>= from` holding `c`, or the length of `s` when none does.
pub fn find_char(s: &str, c: char, from: usize) -> (r: usize)
    requires
        from <= s@.len(),
    ensures
        r == find_char_from(s@, c, from as int),
        from <= r <= s@.len(),
        r < s@.len() ==> s@[r as int] == c,
    decreases s@.len() - from,
{
    let n = s.unicode_len();
    let mut i: usize = from;
    while i < n
        invariant
            from <= i <= n,
            find_char_from(s@, c, from as int) == find_char_from(s@, c, i as int),
        decreases n - i,
    {
        if s.get_char(i) == c {
            return i;
        }
        i = i + 1;
    }
    n
}

/// Whether `pat` occurs in `s` starting at character `i`.
pub fn begins_at(s: &str, pat: &str, i: usize) -> (r: bool)
    requires
        i <= s@.len(),
    ensures
        r == starts_with_at(s@, pat@, i as int),
{
    let n = s.unicode_len();
    let p = pat.unicode_len();
    if p > n - i {
        return false;
    }
    let mut k: usize = 0;
    while k < p
        invariant
            0 <= k <= p,
            i + p <= n,
            forall|j: int| 0 <= j < k ==> s@[i + j] == pat@[j],
        decreases p - k,
    {
        if s.get_char(i + k) != pat.get_char(k) {
            assert(s@.subrange(i as int, i + p) != pat@) by {
                assert(s@.subrange(i as int, i + p)[k as int] != pat@[k as int]);
            }
            return false;
        }
        k = k + 1;
    }
    assert(s@.subrange(i as int, i + p) =~= pat@);
    true
}

/// Replace every occurrence of `pat` in `s` by `rep`, left to right over
/// non-overlapping occurrences.
pub fn replace_all_str(s: &str, pat: &str, rep: &str) -> (r: String)
    ensures
        r@ == replace_all(s@, pat@, rep@),
{
    let n = s.unicode_len();
    let p = pat.unicode_len();
    if p == 0 {
        return to_owned_str(s);
    }
    let mut out = String::new();
    proof {
        assert(s@.skip(0) =~= s@);
        assert(out@ + replace_all(s@, pat@, rep@) =~= replace_all(s@, pat@, rep@));
    }
    let mut i: usize = 0;
    while i < n
        invariant
            0 <= i <= n,
            p == pat@.len(),
            p >= 1,
            replace_all(s@, pat@, rep@) == out@ + replace_all(s@.skip(i as int), pat@, rep@),
        decreases n - i,
    {
        let ghost suffix = s@.skip(i as int);
        if begins_at(s, pat, i) {
            proof {
                assert(suffix.len() >= p);
                assert(suffix.take(p as int) =~= s@.subrange(i as int, i + p));
                assert(suffix.skip(p as int) =~= s@.skip(i + p));
            }
            push_str(&mut out, rep);
            i = i + p;
        } else {
            if n - i < p {
                proof {
                    assert(replace_all(suffix, pat@, rep@) == suffix);
                    assert(suffix.skip(1) =~= s@.skip(i + 1));
                    assert(seq![suffix[0]] + s@.skip(i + 1) =~= suffix);
                    assert(replace_all(s@.skip(i + 1), pat@, rep@) == s@.skip(i + 1));
                }
            } else {
                proof {
                    assert(suffix.take(p as int) =~= s@.subrange(i as int, i + p));
                    assert(suffix.skip(1) =~= s@.skip(i + 1));
                }
            }
            let piece = substr(s, i, i + 1);
            proof {
                assert(piece@ =~= seq![s@[i as int]]);
            }
            push_str(&mut out, piece);
            i = i + 1;
        }
    }
    proof {
        assert(s@.skip(n as int) =~= Seq::<char>::empty());
        assert(out@ + Seq::<char>::empty() =~= out@);
    }
    out
}

/// The index just past the last non-whitespace character, i.e. the length of
/// `s` without its trailing whitespace.
fn end_of_content(s: &str) -> (r: usize)
    ensures
        r == s@.len() - count_trailing_ws(s@),
{
    let n = s.unicode_len();
    let mut e: usize = n;
    while e > 0
        invariant
            0 <= e <= n,
            forall|j: int| e <= j < n ==> is_ws_char(#[trigger] s@[j]),
        decreases e,
    {
        if !ws_char(s.get_char(e - 1)) {
            proof {
                lemma_count_trailing_ws_is(s@, n - e);
            }
            return e;
        }
        e = e - 1;
    }
    proof {
        lemma_count_trailing_ws_is(s@, n as int);
    }
    0
}

/// The number of leading whitespace characters of `s`.
pub fn leading_ws(s: &str) -> (r: usize)
    ensures
        r == count_leading_ws(s@),
        r <= s@.len(),
{
    let n = s.unicode_len();
    let mut i: usize = 0;
    while i < n
        invariant
            0 <= i <= n,
            forall|j: int| 0 <= j < i ==> is_ws_char(#[trigger] s@[j]),
        decreases n - i,
    {
        if !ws_char(s.get_char(i)) {
            proof {
                lemma_count_leading_ws_is(s@, i as int);
            }
            return i;
        }
        i = i + 1;
    }
    proof {
        lemma_count_leading_ws_is(s@, n as int);
    }
    n
}

/// `s` without leading whitespace.
pub fn trim_start_str(s: &str) -> (r: &str)
    ensures
        r@ == trim_start(s@),
{
    let n = s.unicode_len();
    let lead = leading_ws(s);
    let r = s.substring_char(lead, n);
    proof {
        assert(r@ =~= trim_start(s@));
    }
    r
}

/// `s` without leading and trailing whitespace, as `str::trim`.
pub fn trim_str(s: &str) -> (r: &str)
    ensures
        r@ == trim(s@),
{
    let lead = leading_ws(s);
    let e = end_of_content(s);
    if e <= lead {
        // s is entirely whitespace from `lead` on, so the trimmed text is empty.
        proof {
            lemma_count_trailing_ws_props(s@);
            let t1 = trim_start(s@);
            assert(forall|j: int| 0 <= j < t1.len() ==> is_ws_char(#[trigger] t1[j])) by {
                assert(forall|j: int|
                    0 <= j < t1.len() ==> t1[j] == s@[lead + j] && lead + j >= e);
            }
            lemma_count_trailing_ws_is(t1, t1.len() as int);
            assert(trim(s@) =~= Seq::<char>::empty());
        }
        let r = s.substring_char(0, 0);
        proof {
            assert(r@ =~= Seq::<char>::empty());
        }
        r
    } else {
        let r = s.substring_char(lead, e);
        proof {
            lemma_count_trailing_ws_props(s@);
            let t1 = trim_start(s@);
            let n = s@.len() as int;
            assert(!is_ws_char(s@[e - 1]));
            assert(forall|j: int| e <= j < n ==> is_ws_char(#[trigger] s@[j]));
            assert(forall|j: int| e - lead <= j < t1.len() ==> is_ws_char(#[trigger] t1[j]));
            lemma_count_trailing_ws_is(t1, t1.len() - (e - lead));
            assert(r@ =~= trim(s@));
        }
        r
    }
}

/// Split `s` on a separator character, keeping empty segments.
pub fn split_char_str(s: &str, sep: char) -> (r: Vec<String>)
    ensures
        r.deep_view() == split_char_seq(s@, sep),
    decreases s@.len(),
{
    let n = s.unicode_len();
    let j = find_char(s, sep, 0);
    proof {
        lemma_find_char_from_props(s@, sep, 0);
    }
    if j == n {
        let mut r: Vec<String> = Vec::new();
        r.push(to_owned_str(s));
        proof {
            assert(r.deep_view() =~= split_char_seq(s@, sep));
        }
        r
    } else {
        let head = to_owned_str(substr(s, 0, j));
        let rest_src = substr(s, j + 1, n);
        let mut r = split_char_str(rest_src, sep);
        r.insert(0, head);
        proof {
            assert(rest_src@ =~= s@.skip(j + 1));
            assert(r.deep_view() =~= split_char_seq(s@, sep));
        }
        r
    }
}

/// Split `s` into its whitespace-separated tokens.
pub fn split_ws_str(s: &str) -> (r: Vec<String>)
    ensures
        r.deep_view() == split_ws_seq(s@),
{
    let n = s.unicode_len();
    let mut r: Vec<String> = Vec::new();
    proof {
        assert(s@.skip(0) =~= s@);
        assert(r.deep_view() + split_ws_seq(s@) =~= split_ws_seq(s@));
    }
    let mut i: usize = 0;
    while i < n
        invariant
            0 <= i <= n,
            split_ws_seq(s@) == r.deep_view() + split_ws_seq(s@.skip(i as int)),
        decreases n - i,
    {
        let ghost suffix = s@.skip(i as int);
        if ws_char(s.get_char(i)) {
            proof {
                assert(suffix.skip(1) =~= s@.skip(i + 1));
            }
            i = i + 1;
        } else {
            // Find the end of the current token.
            let start = i;
            let mut e: usize = i;
            while e < n && !ws_char(s.get_char(e))
                invariant
                    start <= e <= n,
                    forall|j: int| start <= j < e ==> !is_ws_char(#[trigger] s@[j]),
                decreases n - e,
            {
                e = e + 1;
            }
            proof {
                lemma_count_leading_nonws_is(suffix, e - start);
                assert(suffix.take((e - start) as int) =~= s@.subrange(start as int, e as int));
                assert(suffix.skip((e - start) as int) =~= s@.skip(e as int));
            }
            let token = to_owned_str(substr(s, start, e));
            r.push(token);
            proof {
                assert(r.deep_view() =~= r.deep_view().drop_last().push(token@));
                assert(r.deep_view().drop_last() + (seq![token@] + split_ws_seq(s@.skip(e as int)))
                    =~= r.deep_view() + split_ws_seq(s@.skip(e as int)));
            }
            i = e;
        }
    }
    proof {
        assert(s@.skip(n as int) =~= Seq::<char>::empty());
        assert(r.deep_view() + split_ws_seq(Seq::<char>::empty()) =~= r.deep_view());
    }
    r
}

} // verus!
