//! The serializer and the parser are inverses at the tree level: parsing
//! the markup of a well-formed tree rebuilds the same names, extensions,
//! commands and metadata, with each file body recaptured in its escaped,
//! newline-wrapped form (a purely whitespace body comes back empty).
//! Dedenting is lossy by design, so byte-for-byte content is pinned at
//! that recaptured level; for content in dedented normal form the
//! rendered content is recovered exactly.

use vstd::prelude::*;

use crate::normalize::escape_xml_seq;
use crate::reader::find_key_end;
use crate::reader::scan_tag_end;
use crate::reader::skip_ws;
use crate::reader::spec_parse_attrs;
use crate::text::contains_char;
use crate::text::find_char_from;
use crate::text::lemma_find_char_range;
use crate::text::is_ws_char;
use crate::txml_elements::DirV;
use crate::txml_elements::FileV;
use crate::txml_elements::MetaV;

verus! {

// ---------------------------------------------------------------------------
// Well-formedness for serialization
// ---------------------------------------------------------------------------
/// An attribute value renders faithfully when it holds no double quote
/// (which would end the value early).
pub open spec fn attr_value_ok(v: Seq<char>) -> bool {
    !contains_char(v, '"')
}

pub open spec fn file_wf(f: FileV) -> bool {
    attr_value_ok(f.name) && attr_value_ok(f.extension) && attr_value_ok(f.command)
}

pub open spec fn dir_wf(d: DirV) -> bool
    decreases d,
{
    &&& attr_value_ok(d.name)
    &&& attr_value_ok(d.in_command)
    &&& attr_value_ok(d.out_command)
    &&& (forall|i: int| 0 <= i < d.files.len() ==> file_wf(#[trigger] d.files[i]))
    &&& (forall|i: int| 0 <= i < d.dirs.len() ==> dir_wf(#[trigger] d.dirs[i]))
}

// ---------------------------------------------------------------------------
// What parsing recaptures
// ---------------------------------------------------------------------------
/// A file as the parser rebuilds it from its own markup: the body is the
/// escaped content between the tags, newline on each side — except that a
/// purely whitespace body renders to a purely whitespace text run, which
/// the builder never takes as content, so it comes back empty.
pub open spec fn reread_file(f: FileV) -> FileV {
    FileV {
        content: if crate::text::is_blank(f.content) {
            Seq::<char>::empty()
        } else {
            seq!['\n'] + escape_xml_seq(f.content) + seq!['\n']
        },
        ..f
    }
}

/// Escaping keeps blankness: whitespace is never special, and every
/// entity holds non-whitespace characters.
proof fn lemma_escape_blank(c: Seq<char>)
    ensures
        crate::text::is_blank(escape_xml_seq(c)) == crate::text::is_blank(c),
    decreases c.len(),
{
    if c.len() == 0 {
        assert(crate::text::is_blank(escape_xml_seq(c)));
    } else {
        lemma_escape_blank(c.skip(1));
        let b = crate::normalize::escape_char_seq(c[0]);
        let rest = escape_xml_seq(c.skip(1));
        assert(escape_xml_seq(c) == b + rest);
        if crate::normalize::special_index(c[0]) < 5 {
            // The block is an entity: its first character '&' is not
            // whitespace, and neither is the special character itself.
            assert(!crate::text::is_blank(escape_xml_seq(c))) by {
                assert((b + rest)[0] == b[0]);
                assert(b[0] == '&');
                assert(!is_ws_char('&'));
            }
            assert(!crate::text::is_blank(c)) by {
                assert(!is_ws_char(c[0]));
            }
        } else {
            assert(b == seq![c[0]]);
            let e = escape_xml_seq(c);
            assert(e[0] == c[0]);
            assert(forall|j: int| 1 <= j < e.len() ==> #[trigger] e[j] == rest[j - 1]);
            if is_ws_char(c[0]) && crate::text::is_blank(rest) {
                assert forall|j: int| 0 <= j < e.len() implies is_ws_char(#[trigger] e[j]) by {
                    if j >= 1 {
                        assert(e[j] == rest[j - 1]);
                    }
                }
            }
            if crate::text::is_blank(e) {
                assert(is_ws_char(c[0]));
                assert forall|j: int| 0 <= j < rest.len() implies is_ws_char(
                    #[trigger] rest[j],
                ) by {
                    assert(rest[j] == e[1 + j]);
                    assert(is_ws_char(e[1 + j]));
                }
            }
            if is_ws_char(c[0]) && crate::text::is_blank(c.skip(1)) {
                assert forall|j: int| 0 <= j < c.len() implies is_ws_char(#[trigger] c[j]) by {
                    if j >= 1 {
                        assert(c[j] == c.skip(1)[j - 1]);
                    }
                }
            }
            if crate::text::is_blank(c) {
                assert forall|j: int|
                    0 <= j < c.skip(1).len() implies is_ws_char(#[trigger] c.skip(1)[j]) by {
                    assert(c.skip(1)[j] == c[1 + j]);
                }
            }
        }
    }
}

/// The directories of `ds` from `i` on, each as the parser rebuilds it.
pub open spec fn reread_dirs(ds: Seq<DirV>, i: int) -> Seq<DirV>
    decreases ds, ds.len() - i,
{
    if i < 0 || i >= ds.len() {
        seq![]
    } else {
        seq![reread_dir(ds[i])] + reread_dirs(ds, i + 1)
    }
}

/// A directory as the parser rebuilds it from its own markup.
pub open spec fn reread_dir(d: DirV) -> DirV
    decreases d, 1int,
{
    DirV {
        files: Seq::new(d.files.len(), |i: int| reread_file(d.files[i])),
        dirs: reread_dirs(d.dirs, 0),
        ..d
    }
}

// ---------------------------------------------------------------------------
// Tag text in attribute form
// ---------------------------------------------------------------------------
/// The rendering of an attribute list: one leading space, the key, `="`,
/// the value, `"`, for each pair in order.
pub open spec fn attr_text(pairs: Seq<(Seq<char>, Seq<char>)>) -> Seq<char>
    decreases pairs.len(),
{
    if pairs.len() == 0 {
        seq![]
    } else {
        seq![' '] + pairs[0].0 + seq!['=', '"'] + pairs[0].1 + seq!['"'] + attr_text(
            pairs.skip(1),
        )
    }
}

/// The rendered body of a file is purely whitespace exactly when the
/// captured content is.
proof fn lemma_file_body_blank(c: Seq<char>)
    ensures
        crate::text::is_blank(seq!['\n'] + escape_xml_seq(c) + seq!['\n'])
            == crate::text::is_blank(c),
{
    lemma_escape_blank(c);
    let e = escape_xml_seq(c);
    let body = seq!['\n'] + e + seq!['\n'];
    assert(body[0] == '\n' && body[body.len() - 1] == '\n');
    assert(forall|j: int| 1 <= j < 1 + e.len() ==> #[trigger] body[j] == e[j - 1]);
    if crate::text::is_blank(e) {
        assert forall|j: int| 0 <= j < body.len() implies is_ws_char(#[trigger] body[j]) by {
            if 1 <= j < 1 + e.len() {
                assert(body[j] == e[j - 1]);
            }
        }
    }
    if crate::text::is_blank(body) {
        assert forall|j: int| 0 <= j < e.len() implies is_ws_char(#[trigger] e[j]) by {
            assert(e[j] == body[1 + j]);
            assert(is_ws_char(body[1 + j]));
        }
    }
}

/// A usable attribute key: non-empty, and free of whitespace, `=`, the
/// quotes, and the tag-ending characters.
pub open spec fn attr_key_ok(k: Seq<char>) -> bool {
    k.len() >= 1 && forall|i: int|
        0 <= i < k.len() ==> !is_ws_char(#[trigger] k[i]) && k[i] != '=' && k[i] != '"' && k[i]
            != '\'' && k[i] != '>'
}

/// A usable attribute list: usable keys, and values that hold no double
/// quote.
pub open spec fn attrs_ok(pairs: Seq<(Seq<char>, Seq<char>)>) -> bool {
    forall|i: int|
        0 <= i < pairs.len() ==> attr_key_ok(#[trigger] pairs[i].0) && attr_value_ok(pairs[i].1)
}

// ---------------------------------------------------------------------------
// Range lemmas over the scanners
// ---------------------------------------------------------------------------
/// Escaped text never holds a `<`, a `>`, a `"` or a `'`: the special
/// characters are all expanded and no entity holds one.
pub proof fn lemma_escape_no_specials(s: Seq<char>)
    ensures
        forall|i: int|
            0 <= i < escape_xml_seq(s).len() ==> #[trigger] escape_xml_seq(s)[i] != '<'
                && escape_xml_seq(s)[i] != '>' && escape_xml_seq(s)[i] != '"' && escape_xml_seq(
                s,
            )[i] != '\'',
    decreases s.len(),
{
    if s.len() > 0 {
        lemma_escape_no_specials(s.skip(1));
        let b = crate::normalize::escape_char_seq(s[0]);
        assert(forall|i: int|
            0 <= i < b.len() ==> #[trigger] b[i] != '<' && b[i] != '>' && b[i] != '"' && b[i]
                != '\'');
        assert(forall|i: int|
            b.len() <= i < escape_xml_seq(s).len() ==> #[trigger] escape_xml_seq(s)[i]
                == escape_xml_seq(s.skip(1))[i - b.len()]);
    }
}

/// The tag scanner steps over characters that neither close the tag nor
/// open a quote.
proof fn lemma_scan_plain(s: Seq<char>, i: int, n: int)
    requires
        0 <= i,
        0 <= n,
        i + n <= s.len(),
        forall|k: int|
            i <= k < i + n ==> #[trigger] s[k] != '>' && s[k] != '"' && s[k] != '\'',
    ensures
        scan_tag_end(s, i, Option::<char>::None) == scan_tag_end(s, i + n, Option::<char>::None),
    decreases n,
{
    if n > 0 {
        lemma_scan_plain(s, i + 1, n - 1);
    }
}

/// The tag scanner steps through a quoted section that does not close it.
proof fn lemma_scan_inquote(s: Seq<char>, i: int, n: int, q: char)
    requires
        0 <= i,
        0 <= n,
        i + n <= s.len(),
        forall|k: int| i <= k < i + n ==> #[trigger] s[k] != q,
    ensures
        scan_tag_end(s, i, Option::Some(q)) == scan_tag_end(s, i + n, Option::Some(q)),
    decreases n,
{
    if n > 0 {
        lemma_scan_inquote(s, i + 1, n - 1, q);
    }
}

/// The tag scanner steps over a whole double-quoted attribute value.
proof fn lemma_scan_quoted(s: Seq<char>, i: int, v: Seq<char>)
    requires
        0 <= i,
        i + 2 + v.len() <= s.len(),
        s[i] == '"',
        s.subrange(i + 1, i + 1 + v.len()) == v,
        s[i + 1 + v.len()] == '"',
        !contains_char(v, '"'),
    ensures
        scan_tag_end(s, i, Option::<char>::None) == scan_tag_end(
            s,
            i + 2 + v.len(),
            Option::<char>::None,
        ),
{
    assert(forall|k: int| i + 1 <= k < i + 1 + v.len() ==> #[trigger] s[k] != '"') by {
        assert(forall|k: int|
            i + 1 <= k < i + 1 + v.len() ==> s[k] == s.subrange(i + 1, i + 1 + v.len())[k - i
                - 1]);
        assert(forall|j: int| 0 <= j < v.len() ==> #[trigger] v[j] != '"');
    }
    lemma_scan_inquote(s, i + 1, v.len() as int, '"');
    assert(scan_tag_end(s, i + 1 + v.len(), Option::Some('"')) == scan_tag_end(
        s,
        i + 2 + v.len(),
        Option::<char>::None,
    ));
}

/// The tag scanner steps over a rendered attribute list.
proof fn lemma_scan_attr_text(s: Seq<char>, i: int, pairs: Seq<(Seq<char>, Seq<char>)>)
    requires
        0 <= i,
        i + attr_text(pairs).len() <= s.len(),
        s.subrange(i, i + attr_text(pairs).len()) == attr_text(pairs),
        attrs_ok(pairs),
    ensures
        scan_tag_end(s, i, Option::<char>::None) == scan_tag_end(
            s,
            i + attr_text(pairs).len(),
            Option::<char>::None,
        ),
    decreases pairs.len(),
{
    if pairs.len() > 0 {
        let key = pairs[0].0;
        let v = pairs[0].1;
        let t = attr_text(pairs);
        let rest = attr_text(pairs.skip(1));
        let head_len: int = (key.len() + v.len() + 4) as int;
        let plain_len: int = (key.len() + 2) as int;
        assert(attr_key_ok(key) && attr_value_ok(v));
        let a1 = seq![' '] + key;
        let a2 = a1 + seq!['=', '"'];
        let a3 = a2 + v;
        let a4 = a3 + seq!['"'];
        assert(t =~= a4 + rest);
        assert(forall|k: int| i <= k < i + t.len() ==> s[k] == #[trigger] t[k - i]) by {
            assert(forall|k: int|
                i <= k < i + t.len() ==> s.subrange(i, i + t.len())[k - i] == #[trigger] t[k
                    - i]);
        }
        // The leading space, the key and the '=' neither close the tag
        // nor open a quote.
        assert forall|k: int|
            i <= k < i + plain_len implies #[trigger] s[k] != '>' && s[k] != '"' && s[k]
            != '\'' by {
            let j = k - i;
            assert(t[j] == a4[j]);
            if j == 0 {
                assert(a4[j] == ' ');
            } else if j <= key.len() {
                assert(a4[j] == key[j - 1]);
            } else {
                assert(a4[j] == '=');
            }
        }
        lemma_scan_plain(s, i, plain_len);
        assert(s[i + plain_len] == '"') by {
            assert(t[plain_len] == a4[plain_len]);
            assert(a4[plain_len] == '"');
        }
        assert(s.subrange(i + plain_len + 1, i + plain_len + 1 + v.len()) =~= v) by {
            assert(forall|j: int|
                0 <= j < v.len() ==> t[plain_len + 1 + j] == a4[plain_len + 1 + j] && a4[plain_len
                    + 1 + j] == #[trigger] v[j]);
        }
        assert(s[i + plain_len + 1 + v.len()] == '"') by {
            assert(t[plain_len + 1 + v.len()] == a4[plain_len + 1 + v.len()]);
            assert(a4[plain_len + 1 + v.len()] == '"');
        }
        lemma_scan_quoted(s, i + plain_len, v);
        assert(s.subrange(i + head_len, i + t.len()) =~= rest) by {
            assert(forall|j: int|
                0 <= j < t.len() - head_len ==> s[i + head_len + j] == t[head_len + j] && t[
                    head_len + j] == #[trigger] rest[j]);
        }
        lemma_scan_attr_text(s, i + head_len, pairs.skip(1));
    } else {
        assert(attr_text(pairs).len() == 0);
    }
}

/// The key scanner steps over key characters.
proof fn lemma_find_key_end_range(s: Seq<char>, i: int, n: int)
    requires
        0 <= i,
        0 <= n,
        i + n <= s.len(),
        forall|k: int| i <= k < i + n ==> !(#[trigger] s[k] == '=' || is_ws_char(s[k])),
    ensures
        find_key_end(s, i) == find_key_end(s, i + n),
    decreases n,
{
    if n > 0 {
        lemma_find_key_end_range(s, i + 1, n - 1);
    }
}

/// Parse one `key="value"` group standing at `i`: the scan consumes it
/// and continues right after the closing quote.
proof fn lemma_parse_one_attr(t: Seq<char>, i: int, key: Seq<char>, v: Seq<char>)
    requires
        0 <= i,
        attr_key_ok(key),
        attr_value_ok(v),
        i + key.len() + 3 + v.len() <= t.len(),
        t.subrange(i, i + key.len() as int) == key,
        t[i + key.len()] == '=',
        t[i + key.len() + 1] == '"',
        t.subrange(i + key.len() + 2, i + key.len() + 2 + v.len() as int) == v,
        t[i + key.len() + 2 + v.len()] == '"',
    ensures
        spec_parse_attrs(t, i) == (match spec_parse_attrs(t, i + key.len() + 3 + v.len()) {
            Option::None => Option::None::<Seq<(Seq<char>, Seq<char>)>>,
            Option::Some(r) => Option::Some(seq![(key, v)] + r),
        }),
{
    let kstart = i;
    let ke_expect = kstart + key.len() as int;
    assert(forall|j: int| 0 <= j < key.len() ==> t[kstart + j] == #[trigger] key[j]) by {
        assert(forall|j: int|
            0 <= j < key.len() ==> t.subrange(i, i + key.len() as int)[j] == #[trigger] key[j]);
    }
    assert(forall|j: int| 0 <= j < v.len() ==> t[ke_expect + 2 + j] == #[trigger] v[j]) by {
        assert(forall|j: int|
            0 <= j < v.len() ==> t.subrange(i + key.len() + 2, i + key.len() + 2 + v.len() as int)[
                j] == #[trigger] v[j]);
    }
    let vclose = ke_expect + 2 + v.len() as int;
    assert(!is_ws_char(t[kstart])) by {
        assert(t[kstart] == key[0]);
    }
    assert(find_key_end(t, kstart) == ke_expect) by {
        assert(forall|k: int|
            kstart <= k < ke_expect ==> !(#[trigger] t[k] == '=' || is_ws_char(t[k]))) by {
            assert(forall|k: int|
                kstart <= k < ke_expect ==> #[trigger] t[k] == key[k - kstart] && !is_ws_char(
                    key[k - kstart],
                ) && key[k - kstart] != '=');
        }
        lemma_find_key_end_range(t, kstart, key.len() as int);
    }
    assert(t.subrange(kstart, ke_expect) =~= key);
    assert(skip_ws(t, ke_expect) == ke_expect);
    assert(skip_ws(t, ke_expect + 1) == ke_expect + 1);
    assert(find_char_from(t, '"', ke_expect + 2) == vclose) by {
        assert(forall|k: int| ke_expect + 2 <= k < vclose ==> #[trigger] t[k] != '"') by {
            assert(forall|k: int|
                ke_expect + 2 <= k < vclose ==> #[trigger] t[k] == v[k - ke_expect - 2] && v[k
                    - ke_expect - 2] != '"');
        }
        lemma_find_char_range(t, '"', ke_expect + 2, v.len() as int);
    }
    assert(t.subrange(ke_expect + 2, vclose) =~= v);
}

/// The attribute parser steps over whitespace.
proof fn lemma_parse_ws_range(t: Seq<char>, i: int, n: int)
    requires
        0 <= i,
        0 <= n,
        i + n <= t.len(),
        forall|k: int| i <= k < i + n ==> is_ws_char(#[trigger] t[k]),
    ensures
        spec_parse_attrs(t, i) == spec_parse_attrs(t, i + n),
    decreases n,
{
    if n > 0 {
        lemma_parse_ws_range(t, i + 1, n - 1);
    }
}

/// A rendered attribute list that fills the rest of a tag's inner text
/// parses back to exactly its pairs.
proof fn lemma_parse_attr_text(t: Seq<char>, i: int, pairs: Seq<(Seq<char>, Seq<char>)>)
    requires
        0 <= i <= t.len(),
        i + attr_text(pairs).len() == t.len(),
        t.subrange(i, t.len() as int) == attr_text(pairs),
        attrs_ok(pairs),
    ensures
        spec_parse_attrs(t, i) == Option::Some(pairs),
    decreases pairs.len(),
{
    if pairs.len() == 0 {
        assert(i == t.len());
        assert(pairs =~= Seq::<(Seq<char>, Seq<char>)>::empty());
    } else {
        let key = pairs[0].0;
        let v = pairs[0].1;
        let w = attr_text(pairs);
        let rest = attr_text(pairs.skip(1));
        let head_len: int = (key.len() + v.len() + 4) as int;
        assert(attr_key_ok(key) && attr_value_ok(v));
        let a1 = seq![' '] + key;
        let a2 = a1 + seq!['=', '"'];
        let a3 = a2 + v;
        let a4 = a3 + seq!['"'];
        assert(w =~= a4 + rest);
        assert(forall|k: int| i <= k < t.len() ==> t[k] == #[trigger] w[k - i]) by {
            assert(forall|k: int|
                i <= k < t.len() ==> t.subrange(i, t.len() as int)[k - i] == #[trigger] w[k - i]);
        }
        assert(t[i] == ' ') by {
            assert(w[0] == a4[0]);
        }
        assert(is_ws_char(' '));
        // After the leading space comes the key, then '=', '"', the
        // value, and the closing '"'.
        let kstart = i + 1;
        let ke_expect = kstart + key.len() as int;
        assert(forall|j: int| 0 <= j < key.len() ==> t[kstart + j] == #[trigger] key[j]) by {
            assert(forall|j: int|
                0 <= j < key.len() ==> w[1 + j] == a4[1 + j] && a4[1 + j] == #[trigger] key[j]);
        }
        assert(t[ke_expect] == '=') by {
            assert(w[ke_expect - i] == a4[ke_expect - i]);
        }
        assert(t[ke_expect + 1] == '"') by {
            assert(w[ke_expect + 1 - i] == a4[ke_expect + 1 - i]);
        }
        assert(forall|j: int| 0 <= j < v.len() ==> t[ke_expect + 2 + j] == #[trigger] v[j]) by {
            assert(forall|j: int|
                0 <= j < v.len() ==> w[ke_expect + 2 + j - i] == a4[ke_expect + 2 + j - i] && a4[
                    ke_expect + 2 + j - i] == #[trigger] v[j]);
        }
        let vclose = ke_expect + 2 + v.len() as int;
        assert(t[vclose] == '"') by {
            assert(w[vclose - i] == a4[vclose - i]);
        }
        // The parser now walks exactly these regions.
        assert(spec_parse_attrs(t, i) == spec_parse_attrs(t, kstart));
        assert(!is_ws_char(t[kstart])) by {
            assert(t[kstart] == key[0]);
        }
        assert(find_key_end(t, kstart) == ke_expect) by {
            assert(forall|k: int|
                kstart <= k < ke_expect ==> !(#[trigger] t[k] == '=' || is_ws_char(t[k]))) by {
                assert(forall|k: int|
                    kstart <= k < ke_expect ==> #[trigger] t[k] == key[k - kstart] && !is_ws_char(
                        key[k - kstart],
                    ) && key[k - kstart] != '=');
            }
            lemma_find_key_end_range(t, kstart, key.len() as int);
        }
        assert(t.subrange(kstart, ke_expect) =~= key);
        assert(skip_ws(t, ke_expect) == ke_expect);
        assert(skip_ws(t, ke_expect + 1) == ke_expect + 1);
        assert(find_char_from(t, '"', ke_expect + 2) == vclose) by {
            assert(forall|k: int| ke_expect + 2 <= k < vclose ==> #[trigger] t[k] != '"') by {
                assert(forall|k: int|
                    ke_expect + 2 <= k < vclose ==> #[trigger] t[k] == v[k - ke_expect - 2] && v[k
                        - ke_expect - 2] != '"');
            }
            lemma_find_char_range(t, '"', ke_expect + 2, v.len() as int);
        }
        assert(t.subrange(ke_expect + 2, vclose) =~= v);
        assert(t.subrange(vclose + 1, t.len() as int) =~= rest) by {
            assert(forall|j: int|
                0 <= j < t.len() - vclose - 1 ==> t[vclose + 1 + j] == w[head_len + j] && w[
                    head_len + j] == #[trigger] rest[j]);
        }
        assert(attrs_ok(pairs.skip(1))) by {
            assert(forall|j: int|
                0 <= j < pairs.skip(1).len() ==> #[trigger] pairs.skip(1)[j] == pairs[1 + j]);
        }
        lemma_parse_attr_text(t, vclose + 1, pairs.skip(1));
        assert((key, v) == pairs[0]);
        assert(seq![pairs[0]] + pairs.skip(1) =~= pairs);
    }
}

/// A usable element name: non-empty and free of whitespace, the quotes,
/// the tag-structure characters, and the characters that classify other
/// token kinds.
pub open spec fn elem_name_ok(name: Seq<char>) -> bool {
    name.len() >= 1 && name[0] != '!' && name[0] != '?' && name[0] != '/' && name.last() != '/'
        && forall|i: int|
        0 <= i < name.len() ==> !is_ws_char(#[trigger] name[i]) && name[i] != '>' && name[i] != '"'
            && name[i] != '\''
}

/// The rendered form of a start or empty tag.
pub open spec fn tag_text(name: Seq<char>, pairs: Seq<(Seq<char>, Seq<char>)>, empty: bool) -> Seq<
    char,
> {
    seq!['<'] + name + attr_text(pairs) + (if empty {
        seq!['/', '>']
    } else {
        seq!['>']
    })
}

/// Reading at a rendered start or empty tag produces the classification
/// of its name with its parsed attributes, and moves just past the `>`.
proof fn lemma_read_tag(
    s: Seq<char>,
    pos: int,
    name: Seq<char>,
    pairs: Seq<(Seq<char>, Seq<char>)>,
    empty: bool,
)
    requires
        0 <= pos,
        pos + tag_text(name, pairs, empty).len() <= s.len(),
        s.subrange(pos, pos + tag_text(name, pairs, empty).len()) == tag_text(name, pairs, empty),
        elem_name_ok(name),
        attrs_ok(pairs),
    ensures
        crate::reader::spec_read_event(s, pos) == (
            crate::reader::classify(
                name,
                if empty {
                    crate::reader::StateV::Empty(pairs)
                } else {
                    crate::reader::StateV::Start(pairs)
                },
            ),
            pos + tag_text(name, pairs, empty).len(),
        ),
{
    let t = tag_text(name, pairs, empty);
    let at = attr_text(pairs);
    let gt_pos = pos + t.len() - 1;
    let u1 = seq!['<'] + name;
    let u2 = u1 + at;
    let suffix: Seq<char> = if empty {
        seq!['/', '>']
    } else {
        seq!['>']
    };
    assert(t == u2 + suffix);
    assert(forall|k: int| pos <= k < pos + t.len() ==> s[k] == #[trigger] t[k - pos]) by {
        assert(forall|k: int|
            pos <= k < pos + t.len() ==> s.subrange(pos, pos + t.len())[k - pos] == #[trigger] t[k
                - pos]);
    }
    assert(forall|j: int| 0 <= j < u2.len() ==> #[trigger] t[j] == u2[j]);
    assert(forall|j: int| 1 <= j < 1 + name.len() ==> #[trigger] u2[j] == name[j - 1]) by {
        assert(forall|j: int| 1 <= j < 1 + name.len() ==> #[trigger] u2[j] == u1[j]);
    }
    assert(forall|j: int|
        u1.len() <= j < u1.len() + at.len() ==> #[trigger] u2[j] == at[j - u1.len()]);
    assert(forall|j: int|
        u2.len() <= j < t.len() ==> #[trigger] t[j] == suffix[j - u2.len()]);
    assert(s[pos] == '<') by {
        assert(t[0] == u2[0] && u2[0] == u1[0] && u1[0] == '<');
    }
    assert(s[pos + 1] == name[0]) by {
        assert(t[1] == u2[1] && u2[1] == name[0]);
    }
    // Not a comment, declaration, doctype or end tag.
    assert(!crate::text::starts_with_at(s, seq!['<', '!', '-', '-'], pos)) by {
        if crate::text::starts_with_at(s, seq!['<', '!', '-', '-'], pos) {
            assert(s.subrange(pos, pos + 4)[1] == s[pos + 1]);
        }
    }
    assert(!crate::text::starts_with_at(s, seq!['<', '?'], pos)) by {
        if crate::text::starts_with_at(s, seq!['<', '?'], pos) {
            assert(s.subrange(pos, pos + 2)[1] == s[pos + 1]);
        }
    }
    assert(!crate::text::starts_with_at(s, seq!['<', '!'], pos)) by {
        if crate::text::starts_with_at(s, seq!['<', '!'], pos) {
            assert(s.subrange(pos, pos + 2)[1] == s[pos + 1]);
        }
    }
    assert(!crate::text::starts_with_at(s, seq!['<', '/'], pos)) by {
        if crate::text::starts_with_at(s, seq!['<', '/'], pos) {
            assert(s.subrange(pos, pos + 2)[1] == s[pos + 1]);
        }
    }
    // The scanner runs over the name and the attributes to the closing '>'.
    assert(forall|k: int|
        pos + 1 <= k < pos + 1 + name.len() ==> #[trigger] s[k] != '>' && s[k] != '"' && s[k]
            != '\'') by {
        assert(forall|k: int|
            pos + 1 <= k < pos + 1 + name.len() ==> #[trigger] s[k] == t[k - pos] && t[k - pos]
                == u2[k - pos] && u2[k - pos] == name[k - pos - 1]);
    }
    lemma_scan_plain(s, pos + 1, name.len() as int);
    assert(s.subrange(pos + 1 + name.len(), pos + 1 + name.len() + at.len()) =~= at) by {
        assert(forall|k: int|
            pos + 1 + name.len() <= k < pos + 1 + name.len() + at.len() ==> #[trigger] s[k] == t[k
                - pos] && t[k - pos] == u2[k - pos] && u2[k - pos] == at[k - pos - u1.len()]);
    }
    lemma_scan_attr_text(s, pos + 1 + name.len() as int, pairs);
    let after_attrs = pos + 1 + name.len() + at.len();
    if empty {
        assert(s[after_attrs] == '/' && s[after_attrs + 1] == '>') by {
            assert(t[after_attrs - pos] == suffix[0]);
            assert(t[after_attrs + 1 - pos] == suffix[1]);
        }
        assert(scan_tag_end(s, after_attrs, Option::<char>::None) == scan_tag_end(
            s,
            after_attrs + 1,
            Option::<char>::None,
        ));
        assert(scan_tag_end(s, after_attrs + 1, Option::<char>::None) == gt_pos);
    } else {
        assert(s[after_attrs] == '>') by {
            assert(t[after_attrs - pos] == suffix[0]);
        }
        assert(scan_tag_end(s, after_attrs, Option::<char>::None) == gt_pos);
    }
    assert(scan_tag_end(s, pos + 1, Option::<char>::None) == gt_pos);
    assert(gt_pos < s.len());
    // The inner text splits into the name and the attribute text.
    let inner0 = s.subrange(pos + 1, gt_pos);
    let inner = if empty {
        inner0.drop_last()
    } else {
        inner0
    };
    assert(inner =~= name + at) by {
        assert(forall|j: int| 0 <= j < inner.len() ==> #[trigger] inner[j] == t[1 + j]);
    }
    assert(inner0.len() > 0);
    if empty {
        assert(inner0.last() == t[t.len() - 2]);
        assert(inner0.last() == '/');
    } else {
        assert(inner0 =~= name + at) by {
            assert(forall|j: int| 0 <= j < inner0.len() ==> #[trigger] inner0[j] == t[1 + j]);
        }
        if at.len() > 0 {
            lemma_attr_text_last(pairs);
            assert(inner0.last() == at[at.len() - 1]) by {
                assert((name + at)[name.len() + at.len() - 1] == at[at.len() - 1]);
            }
        } else {
            assert(inner0 =~= name);
        }
        assert(inner0.last() != '/');
    }
    assert(inner.len() > 0 && !is_ws_char(inner[0])) by {
        assert(inner[0] == name[0]);
    }
    assert(crate::text::count_leading_nonws(inner) == name.len()) by {
        assert(forall|j: int| 0 <= j < name.len() ==> !is_ws_char(#[trigger] inner[j])) by {
            assert(forall|j: int| 0 <= j < name.len() ==> #[trigger] inner[j] == name[j]);
        }
        if at.len() > 0 {
            assert(inner[name.len() as int] == at[0]);
            assert(at[0] == ' ');
        }
        crate::text::lemma_count_leading_nonws_is(inner, name.len() as int);
    }
    assert(inner.take(name.len() as int) =~= name);
    assert(spec_parse_attrs(inner, name.len() as int) == Option::Some(pairs)) by {
        assert(inner.subrange(name.len() as int, inner.len() as int) =~= at);
        lemma_parse_attr_text(inner, name.len() as int, pairs);
    }
}

/// The rendered attribute text of a non-empty list ends with a double
/// quote.
proof fn lemma_attr_text_last(pairs: Seq<(Seq<char>, Seq<char>)>)
    requires
        pairs.len() > 0,
        attrs_ok(pairs),
    ensures
        attr_text(pairs).len() >= 4,
        attr_text(pairs).last() == '"',
    decreases pairs.len(),
{
    if pairs.len() > 1 {
        assert(attrs_ok(pairs.skip(1)));
        lemma_attr_text_last(pairs.skip(1));
    } else {
        assert(attr_text(pairs.skip(1)).len() == 0);
    }
}

/// The rendered form of an end tag.
pub open spec fn end_tag_text(name: Seq<char>) -> Seq<char> {
    seq!['<', '/'] + name + seq!['>']
}

/// Reading at a rendered end tag produces the classification of its name
/// as an End, and moves just past the `>`.
proof fn lemma_read_end_tag(s: Seq<char>, pos: int, name: Seq<char>)
    requires
        0 <= pos,
        pos + end_tag_text(name).len() <= s.len(),
        s.subrange(pos, pos + end_tag_text(name).len()) == end_tag_text(name),
        elem_name_ok(name),
    ensures
        crate::reader::spec_read_event(s, pos) == (
            crate::reader::classify(name, crate::reader::StateV::End),
            pos + end_tag_text(name).len(),
        ),
{
    let t = end_tag_text(name);
    let gt_pos = pos + t.len() - 1;
    let u1 = seq!['<', '/'] + name;
    assert(t == u1 + seq!['>']);
    assert(forall|k: int| pos <= k < pos + t.len() ==> s[k] == #[trigger] t[k - pos]) by {
        assert(forall|k: int|
            pos <= k < pos + t.len() ==> s.subrange(pos, pos + t.len())[k - pos] == #[trigger] t[k
                - pos]);
    }
    assert(forall|j: int| 0 <= j < u1.len() ==> #[trigger] t[j] == u1[j]);
    assert(forall|j: int| 2 <= j < 2 + name.len() ==> #[trigger] u1[j] == name[j - 2]);
    assert(s[pos] == '<' && s[pos + 1] == '/') by {
        assert(t[0] == u1[0] && t[1] == u1[1]);
    }
    assert(!crate::text::starts_with_at(s, seq!['<', '!', '-', '-'], pos)) by {
        if crate::text::starts_with_at(s, seq!['<', '!', '-', '-'], pos) {
            assert(s.subrange(pos, pos + 4)[1] == s[pos + 1]);
        }
    }
    assert(!crate::text::starts_with_at(s, seq!['<', '?'], pos)) by {
        if crate::text::starts_with_at(s, seq!['<', '?'], pos) {
            assert(s.subrange(pos, pos + 2)[1] == s[pos + 1]);
        }
    }
    assert(!crate::text::starts_with_at(s, seq!['<', '!'], pos)) by {
        if crate::text::starts_with_at(s, seq!['<', '!'], pos) {
            assert(s.subrange(pos, pos + 2)[1] == s[pos + 1]);
        }
    }
    assert(crate::text::starts_with_at(s, seq!['<', '/'], pos)) by {
        assert(s.subrange(pos, pos + 2) =~= seq!['<', '/']);
    }
    assert(forall|k: int|
        pos + 2 <= k < pos + 2 + name.len() ==> #[trigger] s[k] != '>' && s[k] != '"' && s[k]
            != '\'') by {
        assert(forall|k: int|
            pos + 2 <= k < pos + 2 + name.len() ==> #[trigger] s[k] == t[k - pos] && t[k - pos]
                == u1[k - pos] && u1[k - pos] == name[k - pos - 2]);
    }
    assert(s.subrange(pos + 2, pos + 2 + name.len()) =~= name) by {
        assert(forall|k: int|
            pos + 2 <= k < pos + 2 + name.len() ==> #[trigger] s[k] == t[k - pos] && t[k - pos]
                == u1[k - pos] && u1[k - pos] == name[k - pos - 2]);
    }
    lemma_scan_plain(s, pos + 2, name.len() as int);
    assert(s[gt_pos] == '>') by {
        assert(t[t.len() - 1] == '>');
    }
    assert(scan_tag_end(s, pos + 2, Option::<char>::None) == gt_pos);
    assert(gt_pos < s.len());
    assert(s.subrange(pos + 2, gt_pos) =~= name);
    assert(crate::text::trim(name) == name) by {
        assert(crate::text::count_leading_ws(name) == 0);
        let t1 = crate::text::trim_start(name);
        assert(t1 =~= name);
        assert(crate::text::count_trailing_ws(name) == 0) by {
            assert(!is_ws_char(name.last()));
        }
        assert(crate::text::trim_end(t1) =~= name);
    }
}

// ---------------------------------------------------------------------------
// The file-element round trip
// ---------------------------------------------------------------------------
/// The attribute pairs a file element renders: the name always, the
/// extension and the command only when non-empty.
pub open spec fn file_pairs(f: FileV) -> Seq<(Seq<char>, Seq<char>)> {
    seq![("name"@, f.name)] + (if f.extension.len() > 0 {
        seq![("extension"@, f.extension)]
    } else {
        Seq::<(Seq<char>, Seq<char>)>::empty()
    }) + (if f.command.len() > 0 {
        seq![("command"@, f.command)]
    } else {
        Seq::<(Seq<char>, Seq<char>)>::empty()
    })
}

/// The newline-wrapped escaped body a file element renders.
pub open spec fn file_body(f: FileV) -> Seq<char> {
    seq!['\n'] + escape_xml_seq(f.content) + seq!['\n']
}


/// Attribute text distributes over list concatenation.
proof fn lemma_attr_text_concat(a: Seq<(Seq<char>, Seq<char>)>, b: Seq<(Seq<char>, Seq<char>)>)
    ensures
        attr_text(a + b) == attr_text(a) + attr_text(b),
    decreases a.len(),
{
    if a.len() == 0 {
        assert(a + b =~= b);
        assert(attr_text(a) + attr_text(b) =~= attr_text(b));
    } else {
        assert((a + b)[0] == a[0]);
        assert((a + b).skip(1) =~= a.skip(1) + b);
        lemma_attr_text_concat(a.skip(1), b);
        assert(attr_text(a + b) =~= attr_text(a) + attr_text(b));
    }
}

/// Attribute text of a single pair.
proof fn lemma_attr_text_single(k: Seq<char>, v: Seq<char>)
    ensures
        attr_text(seq![(k, v)]) == seq![' '] + k + seq!['=', '"'] + v + seq!['"'],
{
    let p = seq![(k, v)];
    assert(p.skip(1) =~= Seq::<(Seq<char>, Seq<char>)>::empty());
    assert(attr_text(p.skip(1)) =~= Seq::<char>::empty());
    assert(attr_text(p) =~= seq![' '] + k + seq!['=', '"'] + v + seq!['"']);
}

/// A file's markup decomposes into its open tag, its body, its end tag
/// and a trailing newline.
#[verifier::rlimit(100)]
proof fn lemma_ser_file_shape(f: FileV)
    ensures
        crate::txml_elements::ser_file(f) == tag_text("File"@, file_pairs(f), false) + file_body(
            f,
        ) + end_tag_text("File"@) + seq!['\n'],
{
    reveal_strlit("<File name=\"");
    reveal_strlit("\"");
    reveal_strlit(" extension=\"");
    reveal_strlit(" command=\"");
    reveal_strlit(">\n");
    reveal_strlit("\n</File>\n");
    reveal_strlit("File");
    reveal_strlit("name");
    reveal_strlit("extension");
    reveal_strlit("command");
    let ext_pairs: Seq<(Seq<char>, Seq<char>)> = if f.extension.len() > 0 {
        seq![("extension"@, f.extension)]
    } else {
        Seq::<(Seq<char>, Seq<char>)>::empty()
    };
    let cmd_pairs: Seq<(Seq<char>, Seq<char>)> = if f.command.len() > 0 {
        seq![("command"@, f.command)]
    } else {
        Seq::<(Seq<char>, Seq<char>)>::empty()
    };
    let pairs = file_pairs(f);
    let name_pair = seq![("name"@, f.name)];
    assert(pairs == name_pair + ext_pairs + cmd_pairs);
    lemma_attr_text_concat(name_pair + ext_pairs, cmd_pairs);
    lemma_attr_text_concat(name_pair, ext_pairs);
    lemma_attr_text_single("name"@, f.name);
    if f.extension.len() > 0 {
        lemma_attr_text_single("extension"@, f.extension);
    } else {
        assert(attr_text(ext_pairs) =~= Seq::<char>::empty());
    }
    if f.command.len() > 0 {
        lemma_attr_text_single("command"@, f.command);
    } else {
        assert(attr_text(cmd_pairs) =~= Seq::<char>::empty());
    }
    assert("<File name=\""@ =~= seq!['<'] + "File"@ + seq![' '] + "name"@ + seq!['=', '"']);
    assert(" extension=\""@ =~= seq![' '] + "extension"@ + seq!['=', '"']);
    assert(" command=\""@ =~= seq![' '] + "command"@ + seq!['=', '"']);
    assert("\""@ =~= seq!['"']);
    assert(">\n"@ =~= seq!['>', '\n']);
    assert("\n</File>\n"@ =~= seq!['\n'] + (seq!['<', '/'] + "File"@ + seq!['>']) + seq![
        '\n',
    ]);
    assert(crate::txml_elements::ser_file(f) =~= tag_text("File"@, pairs, false) + file_body(f)
        + end_tag_text("File"@) + seq!['\n']);
}

/// The file element's attribute pairs are usable, provided the file is
/// well formed.
proof fn lemma_file_pairs_ok(f: FileV)
    requires
        file_wf(f),
    ensures
        attrs_ok(file_pairs(f)),
        elem_name_ok("File"@),
{
    reveal_strlit("File");
    reveal_strlit("name");
    reveal_strlit("extension");
    reveal_strlit("command");
    assert(attr_key_ok("name"@)) by {
        assert("name"@.len() == 4);
        assert(forall|i: int|
            0 <= i < 4 ==> !is_ws_char(#[trigger] "name"@[i]) && "name"@[i] != '='
                && "name"@[i] != '"' && "name"@[i] != '\'' && "name"@[i] != '>');
    }
    assert(attr_key_ok("extension"@)) by {
        assert("extension"@.len() == 9);
        assert(forall|i: int|
            0 <= i < 9 ==> !is_ws_char(#[trigger] "extension"@[i]) && "extension"@[i] != '='
                && "extension"@[i] != '"' && "extension"@[i] != '\'' && "extension"@[i] != '>');
    }
    assert(attr_key_ok("command"@)) by {
        assert("command"@.len() == 7);
        assert(forall|i: int|
            0 <= i < 7 ==> !is_ws_char(#[trigger] "command"@[i]) && "command"@[i] != '='
                && "command"@[i] != '"' && "command"@[i] != '\'' && "command"@[i] != '>');
    }
    assert(elem_name_ok("File"@)) by {
        assert("File"@.len() == 4);
        assert(forall|i: int|
            0 <= i < 4 ==> !is_ws_char(#[trigger] "File"@[i]) && "File"@[i] != '>'
                && "File"@[i] != '"' && "File"@[i] != '\'');
        assert("File"@[0] == 'F');
        assert("File"@[3] == 'e');
    }
    let p = file_pairs(f);
    assert forall|i: int| 0 <= i < p.len() implies attr_key_ok(#[trigger] p[i].0)
        && attr_value_ok(p[i].1) by {
        if i == 0 {
            assert(p[0] == ("name"@, f.name));
        } else if f.extension.len() > 0 && i == 1 {
            assert(p[1] == ("extension"@, f.extension));
        } else if f.extension.len() > 0 {
            assert(p[2] == ("command"@, f.command));
        } else {
            assert(p[1] == ("command"@, f.command));
        }
    }
}

/// Folding the attribute pairs of a file element builds exactly that
/// file, with an empty body.
proof fn lemma_file_attrs_fold(f: FileV)
    ensures
        crate::txml_elements::spec_file_attrs(crate::txml_structure::empty_file_v(), file_pairs(f))
            == (FileV { content: Seq::<char>::empty(), ..f }),
{
    reveal_strlit("name");
    reveal_strlit("extension");
    reveal_strlit("command");
    assert("name"@.len() == 4);
    assert("extension"@.len() == 9);
    assert("command"@.len() == 7);
    assert("name"@ != "extension"@ && "name"@ != "command"@ && "extension"@ != "command"@);
    let p = file_pairs(f);
    let f0 = crate::txml_structure::empty_file_v();
    let f1 = crate::txml_elements::spec_file_attr(f0, "name"@, f.name);
    assert(f1 == (FileV { name: f.name, ..f0 }));
    assert(p[0] == ("name"@, f.name));
    let ext_pairs: Seq<(Seq<char>, Seq<char>)> = if f.extension.len() > 0 {
        seq![("extension"@, f.extension)]
    } else {
        Seq::<(Seq<char>, Seq<char>)>::empty()
    };
    let cmd_pairs: Seq<(Seq<char>, Seq<char>)> = if f.command.len() > 0 {
        seq![("command"@, f.command)]
    } else {
        Seq::<(Seq<char>, Seq<char>)>::empty()
    };
    assert(p.skip(1) =~= ext_pairs + cmd_pairs);
    assert(crate::txml_elements::spec_file_attrs(f0, p)
        == crate::txml_elements::spec_file_attrs(f1, ext_pairs + cmd_pairs));
    let f2 = if f.extension.len() > 0 {
        crate::txml_elements::spec_file_attr(f1, "extension"@, f.extension)
    } else {
        f1
    };
    if f.extension.len() > 0 {
        assert((ext_pairs + cmd_pairs)[0] == ("extension"@, f.extension));
        assert((ext_pairs + cmd_pairs).skip(1) =~= cmd_pairs);
        assert(f2 == (FileV { extension: f.extension, ..f1 }));
    } else {
        assert(ext_pairs + cmd_pairs =~= cmd_pairs);
    }
    assert(crate::txml_elements::spec_file_attrs(f1, ext_pairs + cmd_pairs)
        == crate::txml_elements::spec_file_attrs(f2, cmd_pairs));
    let f3 = if f.command.len() > 0 {
        crate::txml_elements::spec_file_attr(f2, "command"@, f.command)
    } else {
        f2
    };
    if f.command.len() > 0 {
        assert(cmd_pairs[0] == ("command"@, f.command));
        assert(cmd_pairs.skip(1) =~= Seq::<(Seq<char>, Seq<char>)>::empty());
        assert(f3 == (FileV { command: f.command, ..f2 }));
    }
    assert(crate::txml_elements::spec_file_attrs(f2, cmd_pairs)
        == crate::txml_elements::spec_file_attrs(
        f3,
        Seq::<(Seq<char>, Seq<char>)>::empty(),
    ));
    assert(f3.extension =~= f.extension);
    assert(f3.command =~= f.command);
    assert(f3.content =~= Seq::<char>::empty());
}

/// Round trip of one file element: folding the events of a well-formed
/// file's own markup attaches to the builder state exactly the file as
/// reread — same name, extension and command, the body recaptured in its
/// escaped, newline-wrapped form, or empty when it was purely whitespace.
#[verifier::rlimit(100)]
#[verifier::spinoff_prover]
pub proof fn lemma_file_markup_rebuilds(
    s: Seq<char>,
    pos: int,
    bs: crate::txml_structure::BuildSt,
    f: FileV,
)
    requires
        file_wf(f),
        0 <= pos,
        pos + crate::txml_elements::ser_file(f).len() <= s.len(),
        s.subrange(pos, pos + crate::txml_elements::ser_file(f).len())
            == crate::txml_elements::ser_file(f),
        bs.cur is None,
    ensures
        crate::txml_structure::spec_build_from(s, pos, bs)
            == crate::txml_structure::spec_build_from(
            s,
            pos + crate::txml_elements::ser_file(f).len() - 1,
            crate::txml_structure::attach_file(bs, reread_file(f)),
        ),
{
    lemma_ser_file_shape(f);
    lemma_file_pairs_ok(f);
    let w = crate::txml_elements::ser_file(f);
    let tag = tag_text("File"@, file_pairs(f), false);
    let body = file_body(f);
    let endt = end_tag_text("File"@);
    let p1 = pos + tag.len();
    let p2 = p1 + body.len();
    let p3 = p2 + endt.len();
    assert(forall|k: int| pos <= k < pos + w.len() ==> s[k] == #[trigger] w[k - pos]) by {
        assert(forall|k: int|
            pos <= k < pos + w.len() ==> s.subrange(pos, pos + w.len())[k - pos] == #[trigger] w[k
                - pos]);
    }
    // Region facts within the markup.
    let w1 = tag + body;
    let w2 = w1 + endt;
    assert(w == w2 + seq!['\n']);
    assert forall|k: int| pos <= k < p1 implies #[trigger] s[k] == tag[k - pos] by {
        assert(s[k] == w[k - pos]);
        assert(w[k - pos] == w2[k - pos] && w2[k - pos] == w1[k - pos] && w1[k - pos] == tag[k
            - pos]);
    }
    assert forall|k: int| p1 <= k < p2 implies #[trigger] s[k] == body[k - p1] by {
        assert(s[k] == w[k - pos]);
        assert(w[k - pos] == w2[k - pos] && w2[k - pos] == w1[k - pos] && w1[k - pos] == body[k
            - pos - tag.len()]);
    }
    assert forall|k: int| p2 <= k < p3 implies #[trigger] s[k] == endt[k - p2] by {
        assert(s[k] == w[k - pos]);
        assert(w[k - pos] == w2[k - pos] && w2[k - pos] == endt[k - pos - w1.len()]);
    }
    // 1: the open tag.
    assert(s.subrange(pos, pos + tag.len()) =~= tag);
    lemma_read_tag(s, pos, "File"@, file_pairs(f), false);
    reveal_strlit("Root");
    reveal_strlit("Metadata");
    reveal_strlit("Variable");
    reveal_strlit("Directory");
    reveal_strlit("File");
    assert("File"@ != "Root"@) by {
        assert("File"@[0] == 'F' && "Root"@[0] == 'R');
    }
    assert("Metadata"@.len() == 8 && "Variable"@.len() == 8 && "Directory"@.len() == 9
        && "File"@.len() == 4);
    assert(crate::reader::classify("File"@, crate::reader::StateV::Start(file_pairs(f)))
        == Result::<crate::reader::EventV, crate::reader::TxmlReaderError>::Ok(
        crate::reader::EventV::File(crate::reader::StateV::Start(file_pairs(f))),
    ));
    lemma_file_attrs_fold(f);
    let bs1 = crate::txml_structure::BuildSt {
        cur: Option::Some(FileV { content: Seq::<char>::empty(), ..f }),
        ..bs
    };
    assert(crate::txml_structure::spec_build_from(s, pos, bs)
        == crate::txml_structure::spec_build_from(s, p1, bs1));
    // 2: the body text run.
    assert(s[p1] == body[0]);
    assert(body[0] == '\n');
    lemma_escape_no_specials(f.content);
    assert(find_char_from(s, '<', p1) == p2) by {
        assert(forall|k: int| p1 <= k < p2 ==> #[trigger] s[k] != '<') by {
            assert(forall|k: int|
                p1 <= k < p2 ==> #[trigger] s[k] == body[k - p1]);
            assert(forall|j: int|
                0 <= j < body.len() ==> #[trigger] body[j] != '<') by {
                assert(forall|j: int|
                    1 <= j < 1 + escape_xml_seq(f.content).len() ==> #[trigger] body[j]
                        == escape_xml_seq(f.content)[j - 1]);
                assert(body[0] == '\n' && body[body.len() - 1] == '\n');
            }
        }
        lemma_find_char_range(s, '<', p1, body.len() as int);
        assert(s[p2] == endt[0]);
        assert(endt[0] == '<') by {
            assert(endt[0] == (seq!['<', '/'] + "File"@)[0]);
        }
    }
    assert(s.subrange(p1, p2) =~= body);
    // A blank body renders to a purely whitespace run, which the builder
    // skips; any other body is taken as content.
    assert(crate::text::is_blank(body) == crate::text::is_blank(f.content)) by {
        lemma_file_body_blank(f.content);
    }
    let bs2 = crate::txml_structure::BuildSt { cur: Option::Some(reread_file(f)), ..bs };
    assert(crate::txml_structure::spec_build_from(s, p1, bs1)
        == crate::txml_structure::spec_build_from(s, p2, bs2)) by {
        assert(crate::reader::spec_read_event(s, p1) == (
            Result::<crate::reader::EventV, crate::reader::TxmlReaderError>::Ok(
                crate::reader::EventV::Text(body),
            ),
            p2,
        ));
        if crate::text::is_blank(f.content) {
            assert(bs2 == bs1);
        } else {
            assert((FileV { content: body, ..(FileV { content: Seq::<char>::empty(), ..f }) })
                == reread_file(f));
        }
    }
    // 3: the end tag.
    assert(s.subrange(p2, p2 + endt.len()) =~= endt);
    lemma_read_end_tag(s, p2, "File"@);
    assert(crate::reader::classify("File"@, crate::reader::StateV::End) == Result::<
        crate::reader::EventV,
        crate::reader::TxmlReaderError,
    >::Ok(crate::reader::EventV::File(crate::reader::StateV::End)));
    let bs3 = crate::txml_structure::attach_file(bs, reread_file(f));
    assert(crate::txml_structure::spec_build_from(s, p2, bs2)
        == crate::txml_structure::spec_build_from(s, p3, bs3)) by {
        assert((crate::txml_structure::BuildSt { cur: Option::None, ..bs2 }) == bs);
    }
    assert(p3 == pos + w.len() - 1);
}

// ---------------------------------------------------------------------------
// The directory round trip
// ---------------------------------------------------------------------------
/// A text run between elements is ignored while no file is open.
proof fn lemma_build_skip_text(s: Seq<char>, p: int, bs: crate::txml_structure::BuildSt)
    requires
        0 <= p < s.len(),
        s[p] != '<',
        bs.cur is None,
    ensures
        crate::txml_structure::spec_build_from(s, p, bs)
            == crate::txml_structure::spec_build_from(s, find_char_from(s, '<', p), bs),
{
    crate::text::lemma_find_char_from_props(s, '<', p);
    let e = find_char_from(s, '<', p);
    assert(p < e) by {
        if e == p {
            assert(s[p] == '<');
        }
    }
}

/// The attribute pairs a directory element renders.
pub open spec fn dir_pairs(d: DirV) -> Seq<(Seq<char>, Seq<char>)> {
    seq![("name"@, d.name)] + (if d.in_command.len() > 0 {
        seq![("in_command"@, d.in_command)]
    } else {
        Seq::<(Seq<char>, Seq<char>)>::empty()
    }) + (if d.out_command.len() > 0 {
        seq![("out_command"@, d.out_command)]
    } else {
        Seq::<(Seq<char>, Seq<char>)>::empty()
    })
}

/// A directory's markup decomposes into its open tag, a newline, its
/// children's markup, its end tag and a trailing newline.
#[verifier::rlimit(100)]
proof fn lemma_ser_dir_shape(d: DirV)
    ensures
        crate::txml_elements::ser_dir(d) == tag_text("Directory"@, dir_pairs(d), false) + seq![
            '\n',
        ] + crate::txml_elements::ser_files(d.files, 0) + crate::txml_elements::ser_dirs(d.dirs, 0)
            + end_tag_text("Directory"@) + seq!['\n'],
{
    reveal_strlit("<Directory name=\"");
    reveal_strlit("\"");
    reveal_strlit(" in_command=\"");
    reveal_strlit(" out_command=\"");
    reveal_strlit(">\n");
    reveal_strlit("</Directory>\n");
    reveal_strlit("Directory");
    reveal_strlit("name");
    reveal_strlit("in_command");
    reveal_strlit("out_command");
    let in_pairs: Seq<(Seq<char>, Seq<char>)> = if d.in_command.len() > 0 {
        seq![("in_command"@, d.in_command)]
    } else {
        Seq::<(Seq<char>, Seq<char>)>::empty()
    };
    let out_pairs: Seq<(Seq<char>, Seq<char>)> = if d.out_command.len() > 0 {
        seq![("out_command"@, d.out_command)]
    } else {
        Seq::<(Seq<char>, Seq<char>)>::empty()
    };
    let pairs = dir_pairs(d);
    let name_pair = seq![("name"@, d.name)];
    assert(pairs == name_pair + in_pairs + out_pairs);
    lemma_attr_text_concat(name_pair + in_pairs, out_pairs);
    lemma_attr_text_concat(name_pair, in_pairs);
    lemma_attr_text_single("name"@, d.name);
    if d.in_command.len() > 0 {
        lemma_attr_text_single("in_command"@, d.in_command);
    } else {
        assert(attr_text(in_pairs) =~= Seq::<char>::empty());
    }
    if d.out_command.len() > 0 {
        lemma_attr_text_single("out_command"@, d.out_command);
    } else {
        assert(attr_text(out_pairs) =~= Seq::<char>::empty());
    }
    assert("<Directory name=\""@ =~= seq!['<'] + "Directory"@ + seq![' '] + "name"@ + seq![
        '=',
        '"',
    ]);
    assert(" in_command=\""@ =~= seq![' '] + "in_command"@ + seq!['=', '"']);
    assert(" out_command=\""@ =~= seq![' '] + "out_command"@ + seq!['=', '"']);
    assert("\""@ =~= seq!['"']);
    assert(">\n"@ =~= seq!['>', '\n']);
    assert("</Directory>\n"@ =~= (seq!['<', '/'] + "Directory"@ + seq!['>']) + seq!['\n']);
    assert(crate::txml_elements::ser_dir_header(d) =~= tag_text("Directory"@, pairs, false)
        + seq!['\n']);
    assert(crate::txml_elements::ser_dir(d) =~= tag_text("Directory"@, pairs, false) + seq!['\n']
        + crate::txml_elements::ser_files(d.files, 0) + crate::txml_elements::ser_dirs(d.dirs, 0)
        + end_tag_text("Directory"@) + seq!['\n']);
}

/// The directory element's attribute pairs are usable, provided the
/// directory's own attributes are well formed.
proof fn lemma_dir_pairs_ok(d: DirV)
    requires
        attr_value_ok(d.name),
        attr_value_ok(d.in_command),
        attr_value_ok(d.out_command),
    ensures
        attrs_ok(dir_pairs(d)),
        elem_name_ok("Directory"@),
{
    reveal_strlit("Directory");
    reveal_strlit("name");
    reveal_strlit("in_command");
    reveal_strlit("out_command");
    assert(attr_key_ok("name"@)) by {
        assert("name"@.len() == 4);
        assert(forall|i: int|
            0 <= i < 4 ==> !is_ws_char(#[trigger] "name"@[i]) && "name"@[i] != '='
                && "name"@[i] != '"' && "name"@[i] != '\'' && "name"@[i] != '>');
    }
    assert(attr_key_ok("in_command"@)) by {
        assert("in_command"@.len() == 10);
        assert(forall|i: int|
            0 <= i < 10 ==> !is_ws_char(#[trigger] "in_command"@[i]) && "in_command"@[i] != '='
                && "in_command"@[i] != '"' && "in_command"@[i] != '\'' && "in_command"@[i]
                != '>');
    }
    assert(attr_key_ok("out_command"@)) by {
        assert("out_command"@.len() == 11);
        assert(forall|i: int|
            0 <= i < 11 ==> !is_ws_char(#[trigger] "out_command"@[i]) && "out_command"@[i] != '='
                && "out_command"@[i] != '"' && "out_command"@[i] != '\'' && "out_command"@[i]
                != '>');
    }
    assert(elem_name_ok("Directory"@)) by {
        assert("Directory"@.len() == 9);
        assert(forall|i: int|
            0 <= i < 9 ==> !is_ws_char(#[trigger] "Directory"@[i]) && "Directory"@[i] != '>'
                && "Directory"@[i] != '"' && "Directory"@[i] != '\'');
        assert("Directory"@[0] == 'D');
        assert("Directory"@[8] == 'y');
    }
    let p = dir_pairs(d);
    assert forall|i: int| 0 <= i < p.len() implies attr_key_ok(#[trigger] p[i].0)
        && attr_value_ok(p[i].1) by {
        if i == 0 {
            assert(p[0] == ("name"@, d.name));
        } else if d.in_command.len() > 0 && i == 1 {
            assert(p[1] == ("in_command"@, d.in_command));
        } else if d.in_command.len() > 0 {
            assert(p[2] == ("out_command"@, d.out_command));
        } else {
            assert(p[1] == ("out_command"@, d.out_command));
        }
    }
}

/// Folding the attribute pairs of a directory element builds exactly
/// that directory, childless.
proof fn lemma_dir_attrs_fold(d: DirV)
    ensures
        crate::txml_elements::spec_dir_attrs(crate::txml_structure::empty_dir_v(), dir_pairs(d))
            == (DirV { files: Seq::<FileV>::empty(), dirs: Seq::<DirV>::empty(), ..d }),
{
    reveal_strlit("name");
    reveal_strlit("in_command");
    reveal_strlit("out_command");
    assert("name"@.len() == 4);
    assert("in_command"@.len() == 10);
    assert("out_command"@.len() == 11);
    assert("name"@ != "in_command"@ && "name"@ != "out_command"@ && "in_command"@
        != "out_command"@) by {
        assert("in_command"@[0] == 'i' && "out_command"@[0] == 'o');
    }
    let p = dir_pairs(d);
    let d0 = crate::txml_structure::empty_dir_v();
    let d1 = crate::txml_elements::spec_dir_attr(d0, "name"@, d.name);
    assert(d1 == (DirV { name: d.name, ..d0 }));
    assert(p[0] == ("name"@, d.name));
    let in_pairs: Seq<(Seq<char>, Seq<char>)> = if d.in_command.len() > 0 {
        seq![("in_command"@, d.in_command)]
    } else {
        Seq::<(Seq<char>, Seq<char>)>::empty()
    };
    let out_pairs: Seq<(Seq<char>, Seq<char>)> = if d.out_command.len() > 0 {
        seq![("out_command"@, d.out_command)]
    } else {
        Seq::<(Seq<char>, Seq<char>)>::empty()
    };
    assert(p.skip(1) =~= in_pairs + out_pairs);
    assert(crate::txml_elements::spec_dir_attrs(d0, p)
        == crate::txml_elements::spec_dir_attrs(d1, in_pairs + out_pairs));
    let d2 = if d.in_command.len() > 0 {
        crate::txml_elements::spec_dir_attr(d1, "in_command"@, d.in_command)
    } else {
        d1
    };
    if d.in_command.len() > 0 {
        assert((in_pairs + out_pairs)[0] == ("in_command"@, d.in_command));
        assert((in_pairs + out_pairs).skip(1) =~= out_pairs);
        assert(d2 == (DirV { in_command: d.in_command, ..d1 }));
    } else {
        assert(in_pairs + out_pairs =~= out_pairs);
    }
    assert(crate::txml_elements::spec_dir_attrs(d1, in_pairs + out_pairs)
        == crate::txml_elements::spec_dir_attrs(d2, out_pairs));
    let d3 = if d.out_command.len() > 0 {
        crate::txml_elements::spec_dir_attr(d2, "out_command"@, d.out_command)
    } else {
        d2
    };
    if d.out_command.len() > 0 {
        assert(out_pairs[0] == ("out_command"@, d.out_command));
        assert(out_pairs.skip(1) =~= Seq::<(Seq<char>, Seq<char>)>::empty());
        assert(d3 == (DirV { out_command: d.out_command, ..d2 }));
    }
    assert(crate::txml_elements::spec_dir_attrs(d2, out_pairs)
        == crate::txml_elements::spec_dir_attrs(
        d3,
        Seq::<(Seq<char>, Seq<char>)>::empty(),
    ));
    assert(d3.in_command =~= d.in_command);
    assert(d3.out_command =~= d.out_command);
    assert(d3.files =~= Seq::<FileV>::empty());
    assert(d3.dirs =~= Seq::<DirV>::empty());
}

/// The builder state after attaching the files of `fl` from `i` on, each
/// as reread.
pub open spec fn attach_files_from(
    bs: crate::txml_structure::BuildSt,
    fl: Seq<FileV>,
    i: int,
) -> crate::txml_structure::BuildSt
    decreases fl.len() - i,
{
    if i < 0 || i >= fl.len() {
        bs
    } else {
        attach_files_from(
            crate::txml_structure::attach_file(bs, reread_file(fl[i])),
            fl,
            i + 1,
        )
    }
}

/// The builder state after attaching the directories of `ds` from `i`
/// on, each as reread.
pub open spec fn attach_dirs_from(
    bs: crate::txml_structure::BuildSt,
    ds: Seq<DirV>,
    i: int,
) -> crate::txml_structure::BuildSt
    decreases ds.len() - i,
{
    if i < 0 || i >= ds.len() {
        bs
    } else {
        attach_dirs_from(crate::txml_structure::attach_dir(bs, reread_dir(ds[i])), ds, i + 1)
    }
}

/// The reread files of `fl` from `i` on, as a list.
pub open spec fn reread_files(fl: Seq<FileV>, i: int) -> Seq<FileV>
    decreases fl.len() - i,
{
    if i < 0 || i >= fl.len() {
        seq![]
    } else {
        seq![reread_file(fl[i])] + reread_files(fl, i + 1)
    }
}

proof fn lemma_reread_files_elems(fl: Seq<FileV>, i: int)
    requires
        0 <= i <= fl.len(),
    ensures
        reread_files(fl, i).len() == fl.len() - i,
        forall|k: int|
            0 <= k < fl.len() - i ==> #[trigger] reread_files(fl, i)[k] == reread_file(fl[i + k]),
    decreases fl.len() - i,
{
    if i < fl.len() {
        lemma_reread_files_elems(fl, i + 1);
    }
}

proof fn lemma_reread_dirs_elems(ds: Seq<DirV>, i: int)
    requires
        0 <= i <= ds.len(),
    ensures
        reread_dirs(ds, i).len() == ds.len() - i,
        forall|k: int|
            0 <= k < ds.len() - i ==> #[trigger] reread_dirs(ds, i)[k] == reread_dir(ds[i + k]),
    decreases ds.len() - i,
{
    if i < ds.len() {
        lemma_reread_dirs_elems(ds, i + 1);
    }
}

/// Attaching files into a state with an open directory appends them, as
/// reread, to that directory.
proof fn lemma_attach_files_stacked(bs: crate::txml_structure::BuildSt, fl: Seq<FileV>, i: int)
    requires
        bs.stack.len() > 0,
        0 <= i <= fl.len(),
    ensures
        attach_files_from(bs, fl, i) == (crate::txml_structure::BuildSt {
            stack: bs.stack.drop_last().push(
                DirV { files: bs.stack.last().files + reread_files(fl, i), ..bs.stack.last() },
            ),
            ..bs
        }),
    decreases fl.len() - i,
{
    let top = bs.stack.last();
    if i >= fl.len() {
        assert(top.files + reread_files(fl, i) =~= top.files);
        assert((DirV { files: top.files + reread_files(fl, i), ..top }) == top);
        assert(bs.stack.drop_last().push(top) =~= bs.stack);
    } else {
        let bs1 = crate::txml_structure::attach_file(bs, reread_file(fl[i]));
        assert(bs1.stack.len() > 0) by {
            assert(bs1.stack == bs.stack.drop_last().push(
                DirV { files: top.files.push(reread_file(fl[i])), ..top },
            ));
        }
        lemma_attach_files_stacked(bs1, fl, i + 1);
        let top1 = bs1.stack.last();
        assert(top1 == (DirV { files: top.files.push(reread_file(fl[i])), ..top }));
        assert(bs1.stack.drop_last() =~= bs.stack.drop_last());
        assert(top1.files + reread_files(fl, i + 1) =~= top.files + reread_files(fl, i)) by {
            lemma_reread_files_elems(fl, i);
            lemma_reread_files_elems(fl, i + 1);
        }
    }
}

/// Attaching directories into a state with an open directory appends
/// them, as reread, to that directory.
proof fn lemma_attach_dirs_stacked(bs: crate::txml_structure::BuildSt, ds: Seq<DirV>, i: int)
    requires
        bs.stack.len() > 0,
        0 <= i <= ds.len(),
    ensures
        attach_dirs_from(bs, ds, i) == (crate::txml_structure::BuildSt {
            stack: bs.stack.drop_last().push(
                DirV { dirs: bs.stack.last().dirs + reread_dirs(ds, i), ..bs.stack.last() },
            ),
            ..bs
        }),
    decreases ds.len() - i,
{
    let top = bs.stack.last();
    if i >= ds.len() {
        assert(top.dirs + reread_dirs(ds, i) =~= top.dirs);
        assert((DirV { dirs: top.dirs + reread_dirs(ds, i), ..top }) == top);
        assert(bs.stack.drop_last().push(top) =~= bs.stack);
    } else {
        let bs1 = crate::txml_structure::attach_dir(bs, reread_dir(ds[i]));
        assert(bs1.stack.len() > 0) by {
            assert(bs1.stack == bs.stack.drop_last().push(
                DirV { dirs: top.dirs.push(reread_dir(ds[i])), ..top },
            ));
        }
        lemma_attach_dirs_stacked(bs1, ds, i + 1);
        let top1 = bs1.stack.last();
        assert(top1 == (DirV { dirs: top.dirs.push(reread_dir(ds[i])), ..top }));
        assert(bs1.stack.drop_last() =~= bs.stack.drop_last());
        assert(top1.dirs + reread_dirs(ds, i + 1) =~= top.dirs + reread_dirs(ds, i)) by {
            lemma_reread_dirs_elems(ds, i);
            lemma_reread_dirs_elems(ds, i + 1);
        }
    }
}

/// Folding the markup of the files of `fl` from `i` on, starting at the
/// head of the `g` non-`<` characters that precede them, attaches each
/// file as reread and stops on the newline that follows the last.  With
/// no file to fold, nothing moves.
#[verifier::rlimit(100)]
proof fn lemma_files_markup_gap(
    s: Seq<char>,
    p: int,
    g: int,
    bs: crate::txml_structure::BuildSt,
    fl: Seq<FileV>,
    i: int,
)
    requires
        forall|j: int| i <= j < fl.len() ==> file_wf(#[trigger] fl[j]),
        0 <= i <= fl.len(),
        g >= 1,
        0 <= p < s.len(),
        forall|k: int| p <= k < p + g ==> #[trigger] s[k] != '<',
        bs.cur is None,
        p + g + crate::txml_elements::ser_files(fl, i).len() <= s.len(),
        s.subrange(p + g, p + g + crate::txml_elements::ser_files(fl, i).len())
            == crate::txml_elements::ser_files(fl, i),
    ensures
        i < fl.len() ==> crate::txml_structure::spec_build_from(s, p, bs)
            == crate::txml_structure::spec_build_from(
            s,
            p + g + crate::txml_elements::ser_files(fl, i).len() - 1,
            attach_files_from(bs, fl, i),
        ),
        attach_files_from(bs, fl, i).cur == bs.cur,
    decreases fl.len() - i,
{
    if i < fl.len() {
        let head = crate::txml_elements::ser_file(fl[i]);
        let whole = crate::txml_elements::ser_files(fl, i);
        let rest = crate::txml_elements::ser_files(fl, i + 1);
        assert(whole == head + rest);
        assert(forall|k: int|
            p + g <= k < p + g + whole.len() ==> s[k] == #[trigger] whole[k - p - g]) by {
            assert(forall|k: int|
                p + g <= k < p + g + whole.len() ==> s.subrange(p + g, p + g + whole.len())[k - p
                    - g] == #[trigger] whole[k - p - g]);
        }
        lemma_ser_file_shape(fl[i]);
        assert(head.len() >= 2);
        assert(head[0] == '<') by {
            let tag = tag_text("File"@, file_pairs(fl[i]), false);
            assert(head[0] == tag[0]);
            assert(tag[0] == (seq!['<'] + "File"@)[0]);
        }
        assert(s[p + g] == '<') by {
            assert(whole[0] == head[0]);
        }
        assert(find_char_from(s, '<', p) == p + g) by {
            lemma_find_char_range(s, '<', p, g);
        }
        assert(s[p] != '<');
        lemma_build_skip_text(s, p, bs);
        assert(s.subrange(p + g, p + g + head.len()) =~= head) by {
            assert forall|k: int| p + g <= k < p + g + head.len() implies #[trigger] s[k]
                == head[k - p - g] by {
                assert(s[k] == whole[k - p - g]);
                assert(whole[k - p - g] == head[k - p - g]);
            }
        }
        lemma_file_markup_rebuilds(s, p + g, bs, fl[i]);
        let bs1 = crate::txml_structure::attach_file(bs, reread_file(fl[i]));
        let p1 = p + g + head.len() - 1;
        assert(s[p1] == '\n') by {
            assert(whole[head.len() - 1] == head[head.len() - 1]);
            assert(head[head.len() - 1] == '\n') by {
                let tail = end_tag_text("File"@) + seq!['\n'];
                assert(head == (tag_text("File"@, file_pairs(fl[i]), false) + file_body(fl[i]))
                    + tail);
                assert(head[head.len() - 1] == tail[tail.len() - 1]);
            }
        }
        assert(s.subrange(p1 + 1, p1 + 1 + rest.len()) =~= rest) by {
            assert forall|k: int| p1 + 1 <= k < p1 + 1 + rest.len() implies #[trigger] s[k]
                == rest[k - p1 - 1] by {
                assert(s[k] == whole[k - p - g]);
                assert(whole[k - p - g] == rest[k - p - g - head.len()]);
            }
        }
        assert(bs1.cur is None);
        if i + 1 < fl.len() {
            lemma_files_markup_gap(s, p1, 1, bs1, fl, i + 1);
        } else {
            assert(rest.len() == 0);
            assert(attach_files_from(bs1, fl, i + 1) == bs1);
        }
    } else {
        assert(crate::txml_elements::ser_files(fl, i).len() == 0);
    }
}

/// Folding the markup of the directories of `ds` from `i` on, starting
/// at the head of the `g` non-`<` characters that precede them, attaches
/// each directory subtree as reread and stops on the newline that
/// follows the last.  With no directory to fold, nothing moves.
#[verifier::rlimit(100)]
proof fn lemma_dirs_markup_gap(
    s: Seq<char>,
    p: int,
    g: int,
    bs: crate::txml_structure::BuildSt,
    ds: Seq<DirV>,
    i: int,
)
    requires
        forall|j: int| i <= j < ds.len() ==> dir_wf(#[trigger] ds[j]),
        0 <= i <= ds.len(),
        g >= 1,
        0 <= p < s.len(),
        forall|k: int| p <= k < p + g ==> #[trigger] s[k] != '<',
        bs.cur is None,
        p + g + crate::txml_elements::ser_dirs(ds, i).len() <= s.len(),
        s.subrange(p + g, p + g + crate::txml_elements::ser_dirs(ds, i).len())
            == crate::txml_elements::ser_dirs(ds, i),
    ensures
        i < ds.len() ==> crate::txml_structure::spec_build_from(s, p, bs)
            == crate::txml_structure::spec_build_from(
            s,
            p + g + crate::txml_elements::ser_dirs(ds, i).len() - 1,
            attach_dirs_from(bs, ds, i),
        ),
        attach_dirs_from(bs, ds, i).cur == bs.cur,
    decreases ds, ds.len() - i,
{
    if i < ds.len() {
        let head = crate::txml_elements::ser_dir(ds[i]);
        let whole = crate::txml_elements::ser_dirs(ds, i);
        let rest = crate::txml_elements::ser_dirs(ds, i + 1);
        assert(whole == head + rest);
        assert(forall|k: int|
            p + g <= k < p + g + whole.len() ==> s[k] == #[trigger] whole[k - p - g]) by {
            assert(forall|k: int|
                p + g <= k < p + g + whole.len() ==> s.subrange(p + g, p + g + whole.len())[k - p
                    - g] == #[trigger] whole[k - p - g]);
        }
        lemma_ser_dir_shape(ds[i]);
        assert(head.len() >= 2);
        assert(head[0] == '<') by {
            let tag = tag_text("Directory"@, dir_pairs(ds[i]), false);
            assert(head[0] == tag[0]);
            assert(tag[0] == (seq!['<'] + "Directory"@)[0]);
        }
        assert(s[p + g] == '<') by {
            assert(whole[0] == head[0]);
        }
        assert(find_char_from(s, '<', p) == p + g) by {
            lemma_find_char_range(s, '<', p, g);
        }
        assert(s[p] != '<');
        lemma_build_skip_text(s, p, bs);
        assert(s.subrange(p + g, p + g + head.len()) =~= head) by {
            assert forall|k: int| p + g <= k < p + g + head.len() implies #[trigger] s[k]
                == head[k - p - g] by {
                assert(s[k] == whole[k - p - g]);
                assert(whole[k - p - g] == head[k - p - g]);
            }
        }
        lemma_dir_markup_rebuilds(s, p + g, bs, ds[i]);
        let bs1 = crate::txml_structure::attach_dir(bs, reread_dir(ds[i]));
        let p1 = p + g + head.len() - 1;
        assert(s[p1] == '\n') by {
            assert(whole[head.len() - 1] == head[head.len() - 1]);
            assert(head[head.len() - 1] == '\n') by {
                let front = tag_text("Directory"@, dir_pairs(ds[i]), false) + seq!['\n']
                    + crate::txml_elements::ser_files(ds[i].files, 0)
                    + crate::txml_elements::ser_dirs(ds[i].dirs, 0) + end_tag_text("Directory"@);
                assert(head == front + seq!['\n']);
                assert(head[head.len() - 1] == seq!['\n'][0]);
            }
        }
        assert(s.subrange(p1 + 1, p1 + 1 + rest.len()) =~= rest) by {
            assert forall|k: int| p1 + 1 <= k < p1 + 1 + rest.len() implies #[trigger] s[k]
                == rest[k - p1 - 1] by {
                assert(s[k] == whole[k - p - g]);
                assert(whole[k - p - g] == rest[k - p - g - head.len()]);
            }
        }
        assert(bs1.cur is None);
        if i + 1 < ds.len() {
            lemma_dirs_markup_gap(s, p1, 1, bs1, ds, i + 1);
        } else {
            assert(rest.len() == 0);
            assert(attach_dirs_from(bs1, ds, i + 1) == bs1);
        }
    } else {
        assert(crate::txml_elements::ser_dirs(ds, i).len() == 0);
    }
}

/// Round trip of a directory subtree: folding the events of a
/// well-formed directory's own markup attaches to the builder state
/// exactly the directory as reread — the same names and hook commands
/// throughout the subtree, in the same order, with every file body
/// recaptured as `reread_file` states it.
/// Index facts over a directory's rendered markup: where its open tag,
/// separating newlines, children and end tag stand.
#[verifier::rlimit(100)]
#[verifier::spinoff_prover]
proof fn lemma_dir_markup_regions(s: Seq<char>, pos: int, d: DirV)
    requires
        0 <= pos,
        pos + crate::txml_elements::ser_dir(d).len() <= s.len(),
        s.subrange(pos, pos + crate::txml_elements::ser_dir(d).len())
            == crate::txml_elements::ser_dir(d),
    ensures
        forall|k: int|
            pos <= k < pos + tag_text("Directory"@, dir_pairs(d), false).len() ==> #[trigger] s[k]
                == tag_text("Directory"@, dir_pairs(d), false)[k - pos],
        s[pos + tag_text("Directory"@, dir_pairs(d), false).len()] == '\n',
        forall|k: int|
            pos + tag_text("Directory"@, dir_pairs(d), false).len() + 1 <= k < pos + tag_text(
                "Directory"@,
                dir_pairs(d),
                false,
            ).len() + 1 + crate::txml_elements::ser_files(d.files, 0).len() ==> #[trigger] s[k]
                == crate::txml_elements::ser_files(d.files, 0)[k - pos - tag_text(
                "Directory"@,
                dir_pairs(d),
                false,
            ).len() - 1],
        forall|k: int|
            pos + tag_text("Directory"@, dir_pairs(d), false).len() + 1
                + crate::txml_elements::ser_files(d.files, 0).len() <= k < pos + tag_text(
                "Directory"@,
                dir_pairs(d),
                false,
            ).len() + 1 + crate::txml_elements::ser_files(d.files, 0).len()
                + crate::txml_elements::ser_dirs(d.dirs, 0).len() ==> #[trigger] s[k]
                == crate::txml_elements::ser_dirs(d.dirs, 0)[k - pos - tag_text(
                "Directory"@,
                dir_pairs(d),
                false,
            ).len() - 1 - crate::txml_elements::ser_files(d.files, 0).len()],
        forall|k: int|
            pos + crate::txml_elements::ser_dir(d).len() - 1 - end_tag_text("Directory"@).len()
                <= k < pos + crate::txml_elements::ser_dir(d).len() - 1 ==> #[trigger] s[k]
                == end_tag_text("Directory"@)[k - (pos + crate::txml_elements::ser_dir(d).len()
                - 1 - end_tag_text("Directory"@).len())],
{
    lemma_ser_dir_shape(d);
    let w = crate::txml_elements::ser_dir(d);
    let tag = tag_text("Directory"@, dir_pairs(d), false);
    let files_part = crate::txml_elements::ser_files(d.files, 0);
    let dirs_part = crate::txml_elements::ser_dirs(d.dirs, 0);
    let endt = end_tag_text("Directory"@);
    let pa = pos + tag.len();
    assert(forall|k: int| pos <= k < pos + w.len() ==> s[k] == #[trigger] w[k - pos]) by {
        assert(forall|k: int|
            pos <= k < pos + w.len() ==> s.subrange(pos, pos + w.len())[k - pos] == #[trigger] w[k
                - pos]);
    }
    let w1 = tag + seq!['\n'];
    let w2 = w1 + files_part;
    let w3 = w2 + dirs_part;
    let w4 = w3 + endt;
    assert(w == w4 + seq!['\n']);
    assert forall|k: int| pos <= k < pos + tag.len() implies #[trigger] s[k] == tag[k - pos] by {
        assert(s[k] == w[k - pos]);
        assert(w[k - pos] == w4[k - pos] && w4[k - pos] == w3[k - pos] && w3[k - pos] == w2[k
            - pos] && w2[k - pos] == w1[k - pos] && w1[k - pos] == tag[k - pos]);
    }
    assert(s[pa] == '\n') by {
        assert(s[pa] == w[pa - pos]);
        assert(w[pa - pos] == w4[pa - pos] && w4[pa - pos] == w3[pa - pos] && w3[pa - pos] == w2[pa
            - pos] && w2[pa - pos] == w1[pa - pos]);
        assert(w1[tag.len() as int] == seq!['\n'][0]);
    }
    assert forall|k: int| pa + 1 <= k < pa + 1 + files_part.len() implies #[trigger] s[k]
        == files_part[k - pa - 1] by {
        assert(s[k] == w[k - pos]);
        assert(w[k - pos] == w4[k - pos] && w4[k - pos] == w3[k - pos] && w3[k - pos] == w2[k
            - pos] && w2[k - pos] == files_part[k - pos - w1.len()]);
    }
    let pb = pa + files_part.len();
    assert forall|k: int| pb + 1 <= k < pb + 1 + dirs_part.len() implies #[trigger] s[k]
        == dirs_part[k - pb - 1] by {
        assert(s[k] == w[k - pos]);
        assert(w[k - pos] == w4[k - pos] && w4[k - pos] == w3[k - pos] && w3[k - pos]
            == dirs_part[k - pos - w2.len()]);
    }
    let pc = pb + dirs_part.len();
    assert forall|k: int| pc + 1 <= k < pc + 1 + endt.len() implies #[trigger] s[k] == endt[k - pc
        - 1] by {
        assert(s[k] == w[k - pos]);
        assert(w[k - pos] == w4[k - pos] && w4[k - pos] == endt[k - pos - w3.len()]);
    }
    assert(pc + 1 == pos + w.len() - 1 - endt.len());
}

/// Attaching a directory's children into the state that holds it open
/// finishes it as the directory reread.
proof fn lemma_dir_attach_chain(bs: crate::txml_structure::BuildSt, d: DirV)
    ensures
        attach_dirs_from(
            attach_files_from(
                crate::txml_structure::BuildSt {
                    stack: bs.stack.push(
                        DirV { files: Seq::<FileV>::empty(), dirs: Seq::<DirV>::empty(), ..d },
                    ),
                    ..bs
                },
                d.files,
                0,
            ),
            d.dirs,
            0,
        ) == (crate::txml_structure::BuildSt { stack: bs.stack.push(reread_dir(d)), ..bs }),
{
    let d0 = DirV { files: Seq::<FileV>::empty(), dirs: Seq::<DirV>::empty(), ..d };
    let bs1 = crate::txml_structure::BuildSt { stack: bs.stack.push(d0), ..bs };
    lemma_attach_files_stacked(bs1, d.files, 0);
    let bs2 = attach_files_from(bs1, d.files, 0);
    assert(bs1.stack.drop_last() =~= bs.stack);
    let t2 = DirV { files: d0.files + reread_files(d.files, 0), ..d0 };
    assert(bs2.stack == bs.stack.push(t2));
    assert(bs2.stack.len() > 0);
    assert(bs2.stack.last() == t2);
    assert(bs2.stack.drop_last() =~= bs.stack);
    lemma_attach_dirs_stacked(bs2, d.dirs, 0);
    let bs3 = attach_dirs_from(bs2, d.dirs, 0);
    let t3 = DirV { dirs: t2.dirs + reread_dirs(d.dirs, 0), ..t2 };
    assert(bs3.stack =~= bs.stack.push(t3));
    assert(t3.files =~= reread_dir(d).files) by {
        lemma_reread_files_elems(d.files, 0);
    }
    assert(t3.dirs =~= reread_dir(d).dirs);
    assert(t3 == reread_dir(d));
    assert(bs3 == (crate::txml_structure::BuildSt { stack: bs.stack.push(reread_dir(d)), ..bs }));
}

/// Reading a directory's open tag pushes the childless directory onto
/// the builder stack.
#[verifier::rlimit(100)]
#[verifier::spinoff_prover]
proof fn lemma_dir_markup_open(s: Seq<char>, pos: int, bs: crate::txml_structure::BuildSt, d: DirV)
    requires
        attr_value_ok(d.name),
        attr_value_ok(d.in_command),
        attr_value_ok(d.out_command),
        0 <= pos,
        pos + tag_text("Directory"@, dir_pairs(d), false).len() <= s.len(),
        s.subrange(pos, pos + tag_text("Directory"@, dir_pairs(d), false).len()) == tag_text(
            "Directory"@,
            dir_pairs(d),
            false,
        ),
    ensures
        crate::txml_structure::spec_build_from(s, pos, bs)
            == crate::txml_structure::spec_build_from(
            s,
            pos + tag_text("Directory"@, dir_pairs(d), false).len(),
            crate::txml_structure::BuildSt {
                stack: bs.stack.push(
                    DirV { files: Seq::<FileV>::empty(), dirs: Seq::<DirV>::empty(), ..d },
                ),
                ..bs
            },
        ),
{
    lemma_dir_pairs_ok(d);
    lemma_read_tag(s, pos, "Directory"@, dir_pairs(d), false);
    reveal_strlit("Root");
    reveal_strlit("Metadata");
    reveal_strlit("Variable");
    reveal_strlit("Directory");
    assert("Root"@.len() == 4 && "Metadata"@.len() == 8 && "Variable"@.len() == 8
        && "Directory"@.len() == 9);
    assert(crate::reader::classify("Directory"@, crate::reader::StateV::Start(dir_pairs(d)))
        == Result::<crate::reader::EventV, crate::reader::TxmlReaderError>::Ok(
        crate::reader::EventV::Directory(crate::reader::StateV::Start(dir_pairs(d))),
    ));
    lemma_dir_attrs_fold(d);
}

/// Reading a directory's end tag from the preceding newline pops the
/// finished directory and attaches it.
#[verifier::rlimit(100)]
#[verifier::spinoff_prover]
proof fn lemma_dir_markup_close(s: Seq<char>, pc: int, bsb: crate::txml_structure::BuildSt, d: DirV)
    requires
        0 <= pc < s.len(),
        s[pc] == '\n',
        pc + 1 + end_tag_text("Directory"@).len() <= s.len(),
        s.subrange(pc + 1, pc + 1 + end_tag_text("Directory"@).len()) == end_tag_text(
            "Directory"@,
        ),
        bsb.cur is None,
    ensures
        crate::txml_structure::spec_build_from(
            s,
            pc,
            crate::txml_structure::BuildSt { stack: bsb.stack.push(reread_dir(d)), ..bsb },
        ) == crate::txml_structure::spec_build_from(
            s,
            pc + 1 + end_tag_text("Directory"@).len(),
            crate::txml_structure::attach_dir(bsb, reread_dir(d)),
        ),
{
    let endt = end_tag_text("Directory"@);
    reveal_strlit("Root");
    reveal_strlit("Metadata");
    reveal_strlit("Variable");
    reveal_strlit("Directory");
    assert("Root"@.len() == 4 && "Metadata"@.len() == 8 && "Variable"@.len() == 8
        && "Directory"@.len() == 9);
    assert(elem_name_ok("Directory"@)) by {
        lemma_dir_pairs_ok(
            DirV {
                name: Seq::<char>::empty(),
                in_command: Seq::<char>::empty(),
                out_command: Seq::<char>::empty(),
                files: Seq::<FileV>::empty(),
                dirs: Seq::<DirV>::empty(),
            },
        );
    }
    let bs3 = crate::txml_structure::BuildSt { stack: bsb.stack.push(reread_dir(d)), ..bsb };
    assert(s[pc + 1] == '<') by {
        assert(s.subrange(pc + 1, pc + 1 + endt.len())[0] == s[pc + 1]);
        assert(endt[0] == (seq!['<', '/'] + "Directory"@)[0]);
    }
    assert(find_char_from(s, '<', pc + 1) == pc + 1);
    assert(find_char_from(s, '<', pc) == pc + 1);
    lemma_build_skip_text(s, pc, bs3);
    lemma_read_end_tag(s, pc + 1, "Directory"@);
    assert(crate::reader::classify("Directory"@, crate::reader::StateV::End) == Result::<
        crate::reader::EventV,
        crate::reader::TxmlReaderError,
    >::Ok(crate::reader::EventV::Directory(crate::reader::StateV::End)));
    assert(bs3.stack.len() > 0);
    assert(bs3.stack.last() == reread_dir(d));
    assert(bs3.stack.drop_last() =~= bsb.stack);
    assert((crate::txml_structure::BuildSt { stack: bs3.stack.drop_last(), ..bs3 }) == bsb);
}

#[verifier::rlimit(100)]
#[verifier::spinoff_prover]
pub proof fn lemma_dir_markup_rebuilds(
    s: Seq<char>,
    pos: int,
    bs: crate::txml_structure::BuildSt,
    d: DirV,
)
    requires
        dir_wf(d),
        0 <= pos,
        pos + crate::txml_elements::ser_dir(d).len() <= s.len(),
        s.subrange(pos, pos + crate::txml_elements::ser_dir(d).len())
            == crate::txml_elements::ser_dir(d),
        bs.cur is None,
    ensures
        crate::txml_structure::spec_build_from(s, pos, bs)
            == crate::txml_structure::spec_build_from(
            s,
            pos + crate::txml_elements::ser_dir(d).len() - 1,
            crate::txml_structure::attach_dir(bs, reread_dir(d)),
        ),
    decreases d, 0int,
{
    lemma_ser_dir_shape(d);
    lemma_dir_pairs_ok(d);
    lemma_dir_markup_regions(s, pos, d);
    let w = crate::txml_elements::ser_dir(d);
    let tag = tag_text("Directory"@, dir_pairs(d), false);
    let files_part = crate::txml_elements::ser_files(d.files, 0);
    let dirs_part = crate::txml_elements::ser_dirs(d.dirs, 0);
    let endt = end_tag_text("Directory"@);
    let pa = pos + tag.len();
    let pb = pa + files_part.len();
    let pc = pb + dirs_part.len();
    // 1: the open tag pushes the childless directory.
    assert(s.subrange(pos, pos + tag.len()) =~= tag);
    lemma_dir_markup_open(s, pos, bs, d);
    let d0 = DirV { files: Seq::<FileV>::empty(), dirs: Seq::<DirV>::empty(), ..d };
    let bs1 = crate::txml_structure::BuildSt { stack: bs.stack.push(d0), ..bs };
    assert(crate::txml_structure::spec_build_from(s, pos, bs)
        == crate::txml_structure::spec_build_from(s, pa, bs1));
    // 2: the child files.
    assert(forall|j: int| 0 <= j < d.files.len() ==> file_wf(#[trigger] d.files[j]));
    assert(s.subrange(pa + 1, pa + 1 + files_part.len()) =~= files_part);
    lemma_files_markup_gap(s, pa, 1, bs1, d.files, 0);
    let bs2 = attach_files_from(bs1, d.files, 0);
    if d.files.len() == 0 {
        assert(files_part.len() == 0);
        assert(bs2 == bs1);
    }
    // 3: the child directories.
    assert(forall|j: int| 0 <= j < d.dirs.len() ==> dir_wf(#[trigger] d.dirs[j]));
    assert(s[pb] == '\n') by {
        if files_part.len() > 0 {
            assert(s[pb] == files_part[files_part.len() - 1]);
            lemma_ser_files_last(d.files, 0);
        }
    }
    assert(s.subrange(pb + 1, pb + 1 + dirs_part.len()) =~= dirs_part);
    assert(bs2.cur is None) by {
        lemma_attach_files_stacked(bs1, d.files, 0);
    }
    lemma_dirs_markup_gap(s, pb, 1, bs2, d.dirs, 0);
    let bs3 = attach_dirs_from(bs2, d.dirs, 0);
    if d.dirs.len() == 0 {
        assert(dirs_part.len() == 0);
        assert(bs3 == bs2);
    }
    lemma_dir_attach_chain(bs, d);
    assert(bs3 == (crate::txml_structure::BuildSt { stack: bs.stack.push(reread_dir(d)), ..bs }));
    // 4: the end tag pops and attaches the finished directory.
    assert(s[pc] == '\n') by {
        if dirs_part.len() > 0 {
            assert(s[pc] == dirs_part[dirs_part.len() - 1]);
            lemma_ser_dirs_last(d.dirs, 0);
        }
    }
    assert(s.subrange(pc + 1, pc + 1 + endt.len()) =~= endt);
    lemma_dir_markup_close(s, pc, bs, d);
    assert(pc + 1 + endt.len() == pos + w.len() - 1);
}


// ---------------------------------------------------------------------------
// The metadata element and root-level attachment
// ---------------------------------------------------------------------------
pub open spec fn meta_wf(m: MetaV) -> bool {
    attr_value_ok(m.author) && attr_value_ok(m.date) && attr_value_ok(m.version) && attr_value_ok(
        m.description,
    )
}

/// The attribute pairs a metadata element renders: all four, always.
pub open spec fn meta_pairs(m: MetaV) -> Seq<(Seq<char>, Seq<char>)> {
    seq![
        ("author"@, m.author),
        ("date"@, m.date),
        ("version"@, m.version),
        ("description"@, m.description),
    ]
}

/// The metadata markup is its empty tag followed by a newline and the
/// indentation the serializer emits.
#[verifier::rlimit(100)]
proof fn lemma_ser_meta_shape(m: MetaV)
    ensures
        crate::txml_elements::ser_meta(m) == tag_text("Metadata"@, meta_pairs(m), true)
            + "\n            "@,
{
    reveal_strlit("<Metadata author=\"");
    reveal_strlit("\" date=\"");
    reveal_strlit("\" version=\"");
    reveal_strlit("\" description=\"");
    reveal_strlit("\"/>\n            ");
    reveal_strlit("\n            ");
    reveal_strlit("Metadata");
    reveal_strlit("author");
    reveal_strlit("date");
    reveal_strlit("version");
    reveal_strlit("description");
    let pairs = meta_pairs(m);
    let a1 = seq![("author"@, m.author)];
    let a2 = seq![("date"@, m.date)];
    let a3 = seq![("version"@, m.version)];
    let a4 = seq![("description"@, m.description)];
    assert(pairs == a1 + a2 + a3 + a4);
    lemma_attr_text_concat(a1 + a2 + a3, a4);
    lemma_attr_text_concat(a1 + a2, a3);
    lemma_attr_text_concat(a1, a2);
    lemma_attr_text_single("author"@, m.author);
    lemma_attr_text_single("date"@, m.date);
    lemma_attr_text_single("version"@, m.version);
    lemma_attr_text_single("description"@, m.description);
    assert("<Metadata author=\""@ =~= seq!['<'] + "Metadata"@ + seq![' '] + "author"@ + seq![
        '=',
        '"',
    ]);
    assert("\" date=\""@ =~= seq!['"'] + seq![' '] + "date"@ + seq!['=', '"']);
    assert("\" version=\""@ =~= seq!['"'] + seq![' '] + "version"@ + seq!['=', '"']);
    assert("\" description=\""@ =~= seq!['"'] + seq![' '] + "description"@ + seq!['=', '"']);
    assert("\"/>\n            "@ =~= seq!['"'] + seq!['/', '>'] + "\n            "@);
    assert(crate::txml_elements::ser_meta(m) =~= tag_text("Metadata"@, pairs, true)
        + "\n            "@);
}

proof fn lemma_meta_pairs_ok(m: MetaV)
    requires
        meta_wf(m),
    ensures
        attrs_ok(meta_pairs(m)),
        elem_name_ok("Metadata"@),
{
    reveal_strlit("Metadata");
    reveal_strlit("author");
    reveal_strlit("date");
    reveal_strlit("version");
    reveal_strlit("description");
    assert(attr_key_ok("author"@)) by {
        assert("author"@.len() == 6);
        assert(forall|i: int|
            0 <= i < 6 ==> !is_ws_char(#[trigger] "author"@[i]) && "author"@[i] != '='
                && "author"@[i] != '"' && "author"@[i] != '\'' && "author"@[i] != '>');
    }
    assert(attr_key_ok("date"@)) by {
        assert("date"@.len() == 4);
        assert(forall|i: int|
            0 <= i < 4 ==> !is_ws_char(#[trigger] "date"@[i]) && "date"@[i] != '='
                && "date"@[i] != '"' && "date"@[i] != '\'' && "date"@[i] != '>');
    }
    assert(attr_key_ok("version"@)) by {
        assert("version"@.len() == 7);
        assert(forall|i: int|
            0 <= i < 7 ==> !is_ws_char(#[trigger] "version"@[i]) && "version"@[i] != '='
                && "version"@[i] != '"' && "version"@[i] != '\'' && "version"@[i] != '>');
    }
    assert(attr_key_ok("description"@)) by {
        assert("description"@.len() == 11);
        assert(forall|i: int|
            0 <= i < 11 ==> !is_ws_char(#[trigger] "description"@[i]) && "description"@[i] != '='
                && "description"@[i] != '"' && "description"@[i] != '\'' && "description"@[i]
                != '>');
    }
    assert(elem_name_ok("Metadata"@)) by {
        assert("Metadata"@.len() == 8);
        assert(forall|i: int|
            0 <= i < 8 ==> !is_ws_char(#[trigger] "Metadata"@[i]) && "Metadata"@[i] != '>'
                && "Metadata"@[i] != '"' && "Metadata"@[i] != '\'');
        assert("Metadata"@[0] == 'M');
        assert("Metadata"@[7] == 'a');
    }
    let p = meta_pairs(m);
    assert forall|i: int| 0 <= i < p.len() implies attr_key_ok(#[trigger] p[i].0)
        && attr_value_ok(p[i].1) by {
        if i == 0 {
            assert(p[0] == ("author"@, m.author));
        } else if i == 1 {
            assert(p[1] == ("date"@, m.date));
        } else if i == 2 {
            assert(p[2] == ("version"@, m.version));
        } else {
            assert(p[3] == ("description"@, m.description));
        }
    }
}

/// Folding the metadata attributes overwrites every field: the starting
/// record does not matter.
proof fn lemma_meta_attrs_fold(m0: MetaV, m: MetaV)
    ensures
        crate::txml_elements::spec_meta_attrs(m0, meta_pairs(m)) == m,
{
    reveal_strlit("author");
    reveal_strlit("date");
    reveal_strlit("version");
    reveal_strlit("description");
    assert("author"@.len() == 6 && "date"@.len() == 4 && "version"@.len() == 7
        && "description"@.len() == 11);
    let p = meta_pairs(m);
    let m1 = crate::txml_elements::spec_meta_attr(m0, "author"@, m.author);
    assert(p[0] == ("author"@, m.author));
    assert(p.skip(1) =~= seq![("date"@, m.date), ("version"@, m.version), ("description"@, m.description)]);
    let q1 = p.skip(1);
    let m2 = crate::txml_elements::spec_meta_attr(m1, "date"@, m.date);
    assert(q1[0] == ("date"@, m.date));
    assert(q1.skip(1) =~= seq![("version"@, m.version), ("description"@, m.description)]);
    let q2 = q1.skip(1);
    let m3 = crate::txml_elements::spec_meta_attr(m2, "version"@, m.version);
    assert(q2[0] == ("version"@, m.version));
    assert(q2.skip(1) =~= seq![("description"@, m.description)]);
    let q3 = q2.skip(1);
    let m4 = crate::txml_elements::spec_meta_attr(m3, "description"@, m.description);
    assert(q3[0] == ("description"@, m.description));
    assert(q3.skip(1) =~= Seq::<(Seq<char>, Seq<char>)>::empty());
    assert(m1 == (MetaV { author: m.author, ..m0 }));
    assert(m2 == (MetaV { date: m.date, ..m1 }));
    assert(m3 == (MetaV { version: m.version, ..m2 }));
    assert(m4 == (MetaV { description: m.description, ..m3 }));
    assert(m4 == m);
    assert(crate::txml_elements::spec_meta_attrs(m0, p)
        == crate::txml_elements::spec_meta_attrs(m1, q1));
    assert(crate::txml_elements::spec_meta_attrs(m1, q1)
        == crate::txml_elements::spec_meta_attrs(m2, q2));
    assert(crate::txml_elements::spec_meta_attrs(m2, q2)
        == crate::txml_elements::spec_meta_attrs(m3, q3));
    assert(crate::txml_elements::spec_meta_attrs(m3, q3)
        == crate::txml_elements::spec_meta_attrs(m4, q3.skip(1)));
}

/// Reading a metadata element sets the structure's record to exactly its
/// attributes.
#[verifier::rlimit(100)]
#[verifier::spinoff_prover]
proof fn lemma_meta_markup(s: Seq<char>, pos: int, bs: crate::txml_structure::BuildSt, m: MetaV)
    requires
        meta_wf(m),
        0 <= pos,
        pos + tag_text("Metadata"@, meta_pairs(m), true).len() <= s.len(),
        s.subrange(pos, pos + tag_text("Metadata"@, meta_pairs(m), true).len()) == tag_text(
            "Metadata"@,
            meta_pairs(m),
            true,
        ),
    ensures
        crate::txml_structure::spec_build_from(s, pos, bs)
            == crate::txml_structure::spec_build_from(
            s,
            pos + tag_text("Metadata"@, meta_pairs(m), true).len(),
            crate::txml_structure::BuildSt {
                s: crate::txml_structure::StructV { metadata: m, ..bs.s },
                ..bs
            },
        ),
{
    lemma_meta_pairs_ok(m);
    lemma_read_tag(s, pos, "Metadata"@, meta_pairs(m), true);
    reveal_strlit("Root");
    reveal_strlit("Metadata");
    assert("Root"@.len() == 4 && "Metadata"@.len() == 8);
    assert(crate::reader::classify("Metadata"@, crate::reader::StateV::Empty(meta_pairs(m)))
        == Result::<crate::reader::EventV, crate::reader::TxmlReaderError>::Ok(
        crate::reader::EventV::Metadata(crate::reader::StateV::Empty(meta_pairs(m))),
    ));
    lemma_meta_attrs_fold(bs.s.metadata, m);
}

/// Attaching files at the root appends them, as reread, to the
/// structure's top-level files.
proof fn lemma_attach_files_root(bs: crate::txml_structure::BuildSt, fl: Seq<FileV>, i: int)
    requires
        bs.stack.len() == 0,
        0 <= i <= fl.len(),
    ensures
        attach_files_from(bs, fl, i) == (crate::txml_structure::BuildSt {
            s: crate::txml_structure::StructV {
                files: bs.s.files + reread_files(fl, i),
                ..bs.s
            },
            ..bs
        }),
    decreases fl.len() - i,
{
    if i >= fl.len() {
        assert(bs.s.files + reread_files(fl, i) =~= bs.s.files);
        assert((crate::txml_structure::StructV { files: bs.s.files + reread_files(fl, i), ..bs.s })
            == bs.s);
    } else {
        let bs1 = crate::txml_structure::attach_file(bs, reread_file(fl[i]));
        assert(bs1.stack.len() == 0);
        lemma_attach_files_root(bs1, fl, i + 1);
        assert(bs1.s.files + reread_files(fl, i + 1) =~= bs.s.files + reread_files(fl, i)) by {
            lemma_reread_files_elems(fl, i);
            lemma_reread_files_elems(fl, i + 1);
        }
    }
}

/// Attaching directories at the root appends them, as reread, to the
/// structure's top-level directories.
proof fn lemma_attach_dirs_root(bs: crate::txml_structure::BuildSt, ds: Seq<DirV>, i: int)
    requires
        bs.stack.len() == 0,
        0 <= i <= ds.len(),
    ensures
        attach_dirs_from(bs, ds, i) == (crate::txml_structure::BuildSt {
            s: crate::txml_structure::StructV {
                dirs: bs.s.dirs + reread_dirs(ds, i),
                ..bs.s
            },
            ..bs
        }),
    decreases ds.len() - i,
{
    if i >= ds.len() {
        assert(bs.s.dirs + reread_dirs(ds, i) =~= bs.s.dirs);
        assert((crate::txml_structure::StructV { dirs: bs.s.dirs + reread_dirs(ds, i), ..bs.s })
            == bs.s);
    } else {
        let bs1 = crate::txml_structure::attach_dir(bs, reread_dir(ds[i]));
        assert(bs1.stack.len() == 0);
        lemma_attach_dirs_root(bs1, ds, i + 1);
        assert(bs1.s.dirs + reread_dirs(ds, i + 1) =~= bs.s.dirs + reread_dirs(ds, i)) by {
            lemma_reread_dirs_elems(ds, i);
            lemma_reread_dirs_elems(ds, i + 1);
        }
    }
}


// ---------------------------------------------------------------------------
// The document preamble
// ---------------------------------------------------------------------------
/// The declaration the serializer emits.
pub open spec fn decl_text() -> Seq<char> {
    "<?xml version=\"1.0\" encoding=\"UTF-8\" ?>"@
}

/// The two fixed attributes of the root-open tag.
pub open spec fn root_pairs() -> Seq<(Seq<char>, Seq<char>)> {
    seq![
        ("xmlns:xsi"@, "http://www.w3.org/2001/XMLSchema-instance"@),
        (
            "xsi:noNamespaceSchemaLocation"@,
            "https://lebastudios.org/xml-schemas/txml_schema.xsd"@,
        ),
    ]
}

/// The inner text of the root-open tag.
pub open spec fn root_inner() -> Seq<char> {
    "Root"@ + seq![' '] + "xmlns:xsi"@ + seq!['=', '"']
        + "http://www.w3.org/2001/XMLSchema-instance"@ + seq!['"'] + "\n      "@
        + "xsi:noNamespaceSchemaLocation"@ + seq!['=', '"']
        + "https://lebastudios.org/xml-schemas/txml_schema.xsd"@ + seq!['"']
}

/// The root-open tag.
pub open spec fn root_tag_text() -> Seq<char> {
    seq!['<'] + root_inner() + seq!['>']
}

/// The fixed preamble decomposes into the declaration, a blank line, the
/// root-open tag and the indentation before the metadata element.
#[verifier::rlimit(100)]
#[verifier::spinoff_prover]
proof fn lemma_preamble_shape()
    ensures
        crate::txml_structure::ser_preamble() == decl_text() + "\n\n"@ + root_tag_text()
            + "\n        "@,
{
    reveal_strlit(
        "<?xml version=\"1.0\" encoding=\"UTF-8\" ?>\n\n<Root xmlns:xsi=\"http://www.w3.org/2001/XMLSchema-instance\"\n      xsi:noNamespaceSchemaLocation=\"https://lebastudios.org/xml-schemas/txml_schema.xsd\">\n        ",
    );
    reveal_strlit("<?xml version=\"1.0\" encoding=\"UTF-8\" ?>");
    reveal_strlit("\n\n");
    reveal_strlit("\n        ");
    reveal_strlit("\n      ");
    reveal_strlit("Root");
    reveal_strlit("xmlns:xsi");
    reveal_strlit("xsi:noNamespaceSchemaLocation");
    reveal_strlit("http://www.w3.org/2001/XMLSchema-instance");
    reveal_strlit("https://lebastudios.org/xml-schemas/txml_schema.xsd");
    assert(crate::txml_structure::ser_preamble() =~= decl_text() + "\n\n"@ + root_tag_text()
        + "\n        "@);
}

/// The sequence finder steps over positions whose character differs from
/// the pattern's first.
proof fn lemma_find_seq_lead_range(s: Seq<char>, pat: Seq<char>, i: int, n: int)
    requires
        pat.len() >= 1,
        0 <= i,
        0 <= n,
        i + n <= s.len(),
        forall|k: int| i <= k < i + n ==> #[trigger] s[k] != pat[0],
    ensures
        crate::text::find_seq_from(s, pat, i) == crate::text::find_seq_from(s, pat, i + n),
    decreases n,
{
    if n > 0 {
        if i <= s.len() - pat.len() {
            assert(s.subrange(i, i + pat.len() as int) != pat) by {
                if s.subrange(i, i + pat.len() as int) == pat {
                    assert(s.subrange(i, i + pat.len() as int)[0] == s[i]);
                }
            }
        }
        lemma_find_seq_lead_range(s, pat, i + 1, n - 1);
    }
}

/// Reading at the rendered declaration yields a Declaration event and
/// moves just past the `?>`.
#[verifier::rlimit(100)]
#[verifier::spinoff_prover]
proof fn lemma_read_decl(s: Seq<char>, pos: int)
    requires
        0 <= pos,
        pos + decl_text().len() <= s.len(),
        s.subrange(pos, pos + decl_text().len()) == decl_text(),
    ensures
        crate::reader::spec_read_event(s, pos) == (
            Result::<crate::reader::EventV, crate::reader::TxmlReaderError>::Ok(
                crate::reader::EventV::Declaration,
            ),
            pos + decl_text().len(),
        ),
{
    reveal_strlit("<?xml version=\"1.0\" encoding=\"UTF-8\" ?>");
    reveal_strlit("\n\n");
    reveal_strlit("\n        ");
    reveal_strlit("\n      ");
    reveal_strlit("Root");
    reveal_strlit("xmlns:xsi");
    reveal_strlit("xsi:noNamespaceSchemaLocation");
    reveal_strlit("http://www.w3.org/2001/XMLSchema-instance");
    reveal_strlit("https://lebastudios.org/xml-schemas/txml_schema.xsd");
    let d = decl_text();
    let n = d.len() as int;
    assert(forall|k: int| pos <= k < pos + n ==> #[trigger] s[k] == d[k - pos]) by {
        assert(forall|k: int|
            pos <= k < pos + n ==> #[trigger] s[k] == s.subrange(pos, pos + n)[k - pos]);
    }
    assert(s[pos] == '<');
    assert(s[pos + 1] == '?');
    assert(!crate::text::starts_with_at(s, seq!['<', '!', '-', '-'], pos)) by {
        if crate::text::starts_with_at(s, seq!['<', '!', '-', '-'], pos) {
            assert(s.subrange(pos, pos + 4)[1] == s[pos + 1]);
        }
    }
    assert(crate::text::starts_with_at(s, seq!['<', '?'], pos)) by {
        assert(s.subrange(pos, pos + 2) =~= seq!['<', '?']);
    }
    assert(crate::text::find_seq_from(s, seq!['?', '>'], pos + 2) == pos + n - 2) by {
        assert(forall|k: int| pos + 2 <= k < pos + n - 2 ==> #[trigger] s[k] != '?');
        lemma_find_seq_lead_range(s, seq!['?', '>'], pos + 2, n - 4);
        assert(s.subrange(pos + n - 2, pos + n) =~= seq!['?', '>']);
    }
}

/// Reading at the rendered root-open tag yields the Root Start event
/// with its two fixed attributes, and moves just past the `>`.
#[verifier::rlimit(100)]
#[verifier::spinoff_prover]
proof fn lemma_read_root_tag(s: Seq<char>, pos: int)
    requires
        0 <= pos,
        pos + root_tag_text().len() <= s.len(),
        s.subrange(pos, pos + root_tag_text().len()) == root_tag_text(),
    ensures
        crate::reader::spec_read_event(s, pos) == (
            Result::<crate::reader::EventV, crate::reader::TxmlReaderError>::Ok(
                crate::reader::EventV::Root(crate::reader::StateV::Start(root_pairs())),
            ),
            pos + root_tag_text().len(),
        ),
{
    reveal_strlit("<?xml version=\"1.0\" encoding=\"UTF-8\" ?>");
    reveal_strlit("\n\n");
    reveal_strlit("\n        ");
    reveal_strlit("\n      ");
    reveal_strlit("Root");
    reveal_strlit("xmlns:xsi");
    reveal_strlit("xsi:noNamespaceSchemaLocation");
    reveal_strlit("http://www.w3.org/2001/XMLSchema-instance");
    reveal_strlit("https://lebastudios.org/xml-schemas/txml_schema.xsd");
    let t = root_tag_text();
    let inner = root_inner();
    let url1 = "http://www.w3.org/2001/XMLSchema-instance"@;
    let url2 = "https://lebastudios.org/xml-schemas/txml_schema.xsd"@;
    let key1 = "xmlns:xsi"@;
    let key2 = "xsi:noNamespaceSchemaLocation"@;
    let gt_pos = pos + t.len() - 1;
    assert(forall|k: int| pos <= k < pos + t.len() ==> #[trigger] s[k] == t[k - pos]) by {
        assert(forall|k: int|
            pos <= k < pos + t.len() ==> #[trigger] s[k] == s.subrange(pos, pos + t.len())[k
                - pos]);
    }
    assert(forall|j: int| 1 <= j < 1 + inner.len() ==> #[trigger] t[j] == inner[j - 1]);
    assert(s[pos] == '<');
    assert(s[pos + 1] == 'R') by {
        assert(t[1] == inner[0]);
    }
    assert(!crate::text::starts_with_at(s, seq!['<', '!', '-', '-'], pos)) by {
        if crate::text::starts_with_at(s, seq!['<', '!', '-', '-'], pos) {
            assert(s.subrange(pos, pos + 4)[1] == s[pos + 1]);
        }
    }
    assert(!crate::text::starts_with_at(s, seq!['<', '?'], pos)) by {
        if crate::text::starts_with_at(s, seq!['<', '?'], pos) {
            assert(s.subrange(pos, pos + 2)[1] == s[pos + 1]);
        }
    }
    assert(!crate::text::starts_with_at(s, seq!['<', '!'], pos)) by {
        if crate::text::starts_with_at(s, seq!['<', '!'], pos) {
            assert(s.subrange(pos, pos + 2)[1] == s[pos + 1]);
        }
    }
    assert(!crate::text::starts_with_at(s, seq!['<', '/'], pos)) by {
        if crate::text::starts_with_at(s, seq!['<', '/'], pos) {
            assert(s.subrange(pos, pos + 2)[1] == s[pos + 1]);
        }
    }
    // The scanner walks the two plain stretches and the two quoted
    // values to the closing '>'.
    let seg1_end = pos + 1 + 4 + 1 + key1.len() + 1;
    assert(forall|k: int|
        pos + 1 <= k < seg1_end ==> #[trigger] s[k] != '>' && s[k] != '"' && s[k] != '\'');
    lemma_scan_plain(s, pos + 1, seg1_end - pos - 1);
    let q1 = seg1_end;
    assert(s[q1] == '"');
    assert(s.subrange(q1 + 1, q1 + 1 + url1.len()) =~= url1) by {
        assert(forall|j: int|
            0 <= j < url1.len() ==> s[q1 + 1 + j] == t[q1 + 1 + j - pos] && t[q1 + 1 + j - pos]
                == #[trigger] url1[j]);
    }
    assert(s[q1 + 1 + url1.len()] == '"');
    assert(!contains_char(url1, '"')) by {
        assert(forall|j: int| 0 <= j < url1.len() ==> #[trigger] url1[j] != '"');
    }
    lemma_scan_quoted(s, q1, url1);
    let p2 = q1 + 2 + url1.len() as int;
    let seg2_end = p2 + 7 + key2.len() + 1;
    assert(forall|k: int|
        p2 <= k < seg2_end ==> #[trigger] s[k] != '>' && s[k] != '"' && s[k] != '\'');
    lemma_scan_plain(s, p2, seg2_end - p2);
    let q2 = seg2_end;
    assert(s[q2] == '"');
    assert(s.subrange(q2 + 1, q2 + 1 + url2.len()) =~= url2) by {
        assert(forall|j: int|
            0 <= j < url2.len() ==> s[q2 + 1 + j] == t[q2 + 1 + j - pos] && t[q2 + 1 + j - pos]
                == #[trigger] url2[j]);
    }
    assert(s[q2 + 1 + url2.len()] == '"');
    assert(!contains_char(url2, '"')) by {
        assert(forall|j: int| 0 <= j < url2.len() ==> #[trigger] url2[j] != '"');
    }
    lemma_scan_quoted(s, q2, url2);
    assert(q2 + 2 + url2.len() == gt_pos);
    assert(s[gt_pos] == '>') by {
        assert(t[t.len() - 1] == '>');
    }
    assert(scan_tag_end(s, pos + 1, Option::<char>::None) == gt_pos);
    assert(gt_pos < s.len());
    let inner0 = s.subrange(pos + 1, gt_pos);
    assert(inner0 =~= inner) by {
        assert(forall|j: int| 0 <= j < inner0.len() ==> #[trigger] inner0[j] == t[1 + j]);
    }
    assert(inner0.len() > 0);
    assert(inner0.last() == '"');
    assert(inner.len() > 0 && !is_ws_char(inner[0]));
    assert(crate::text::count_leading_nonws(inner) == 4) by {
        assert(forall|j: int| 0 <= j < 4 ==> !is_ws_char(#[trigger] inner[j]));
        assert(inner[4] == ' ');
        crate::text::lemma_count_leading_nonws_is(inner, 4);
    }
    assert(inner.take(4) =~= "Root"@);
    // The attribute text parses to exactly the two pairs.
    assert(attr_key_ok(key1)) by {
        assert(forall|i: int|
            0 <= i < key1.len() ==> !is_ws_char(#[trigger] key1[i]) && key1[i] != '='
                && key1[i] != '"' && key1[i] != '\'' && key1[i] != '>');
    }
    assert(attr_key_ok(key2)) by {
        assert(forall|i: int|
            0 <= i < key2.len() ==> !is_ws_char(#[trigger] key2[i]) && key2[i] != '='
                && key2[i] != '"' && key2[i] != '\'' && key2[i] != '>');
    }
    assert(spec_parse_attrs(inner, 4) == Option::Some(root_pairs())) by {
        assert(is_ws_char(inner[4]));
        assert(spec_parse_attrs(inner, 4) == spec_parse_attrs(inner, 5));
        let a1 = 5int;
        assert(inner.subrange(a1, a1 + key1.len() as int) =~= key1);
        assert(inner[a1 + key1.len()] == '=');
        assert(inner[a1 + key1.len() + 1] == '"');
        assert(inner.subrange(a1 + key1.len() + 2, a1 + key1.len() + 2 + url1.len() as int)
            =~= url1);
        assert(inner[a1 + key1.len() + 2 + url1.len()] == '"');
        assert(!contains_char(url1, '"'));
        lemma_parse_one_attr(inner, a1, key1, url1);
        let a2 = a1 + key1.len() + 3 + url1.len() as int;
        assert(forall|k: int| a2 <= k < a2 + 7 ==> is_ws_char(#[trigger] inner[k]));
        lemma_parse_ws_range(inner, a2, 7);
        let a3 = a2 + 7;
        assert(inner.subrange(a3, a3 + key2.len() as int) =~= key2);
        assert(inner[a3 + key2.len()] == '=');
        assert(inner[a3 + key2.len() + 1] == '"');
        assert(inner.subrange(a3 + key2.len() + 2, a3 + key2.len() + 2 + url2.len() as int)
            =~= url2);
        assert(inner[a3 + key2.len() + 2 + url2.len()] == '"');
        assert(!contains_char(url2, '"'));
        lemma_parse_one_attr(inner, a3, key2, url2);
        let a4 = a3 + key2.len() + 3 + url2.len() as int;
        assert(a4 == inner.len());
        assert(spec_parse_attrs(inner, a4) == Option::Some(Seq::<(Seq<char>, Seq<char>)>::empty()));
        assert(seq![(key2, url2)] + Seq::<(Seq<char>, Seq<char>)>::empty() =~= seq![(key2, url2)]);
        assert(seq![(key1, url1)] + seq![(key2, url2)] =~= root_pairs());
    }
    assert(crate::reader::classify(inner.take(4), crate::reader::StateV::Start(root_pairs()))
        == Result::<crate::reader::EventV, crate::reader::TxmlReaderError>::Ok(
        crate::reader::EventV::Root(crate::reader::StateV::Start(root_pairs())),
    )) by {
        reveal_strlit("Root");
        assert(inner.take(4) == "Root"@);
    }
}


// ---------------------------------------------------------------------------
// The whole-document round trip
// ---------------------------------------------------------------------------
/// A whole structure is well formed for serialization when its metadata
/// and every node's attributes are.
pub open spec fn struct_wf(sv: crate::txml_structure::StructV) -> bool {
    &&& meta_wf(sv.metadata)
    &&& (forall|i: int| 0 <= i < sv.files.len() ==> file_wf(#[trigger] sv.files[i]))
    &&& (forall|i: int| 0 <= i < sv.dirs.len() ==> dir_wf(#[trigger] sv.dirs[i]))
}

/// The structure a tree's own markup parses back to: the same metadata,
/// names, extensions and commands throughout, every file body recaptured
/// as `reread_file` states it, and the rename flag at its default —
/// serialization does not render it.
pub open spec fn reread_struct(sv: crate::txml_structure::StructV) -> crate::txml_structure::StructV {
    crate::txml_structure::StructV {
        files: Seq::new(sv.files.len(), |i: int| reread_file(sv.files[i])),
        dirs: reread_dirs(sv.dirs, 0),
        metadata: sv.metadata,
        renamable: true,
    }
}

/// The root-open tag's fixed attributes do not touch the structure.
proof fn lemma_root_attrs_noop(s0: crate::txml_structure::StructV)
    ensures
        crate::txml_structure::spec_struct_attrs(s0, root_pairs()) == s0,
{
    reveal_strlit("renamable");
    reveal_strlit("xmlns:xsi");
    reveal_strlit("xsi:noNamespaceSchemaLocation");
    assert("renamable"@.len() == 9);
    assert("xmlns:xsi"@.len() == 9);
    assert("xsi:noNamespaceSchemaLocation"@.len() == 29);
    assert("xmlns:xsi"@ != "renamable"@) by {
        assert("xmlns:xsi"@[0] == 'x' && "renamable"@[0] == 'r');
    }
    let p = root_pairs();
    assert(p[0].0 == "xmlns:xsi"@);
    assert(p.skip(1) =~= seq![p[1]]);
    assert(p[1].0 == "xsi:noNamespaceSchemaLocation"@);
    assert(seq![p[1]].skip(1) =~= Seq::<(Seq<char>, Seq<char>)>::empty());
    assert(crate::txml_structure::spec_struct_attrs(s0, p)
        == crate::txml_structure::spec_struct_attrs(s0, p.skip(1)));
    assert(crate::txml_structure::spec_struct_attrs(s0, p.skip(1))
        == crate::txml_structure::spec_struct_attrs(s0, seq![p[1]].skip(1)));
}

/// Index facts over a whole rendered document.
#[verifier::rlimit(100)]
#[verifier::spinoff_prover]
proof fn lemma_struct_markup_regions(sv: crate::txml_structure::StructV)
    ensures
        crate::txml_structure::ser_struct(sv).len() == crate::txml_structure::ser_preamble().len()
            + crate::txml_elements::ser_meta(sv.metadata).len() + crate::txml_elements::ser_files(
            sv.files,
            0,
        ).len() + crate::txml_elements::ser_dirs(sv.dirs, 0).len() + 7,
        crate::txml_structure::ser_preamble().len() == decl_text().len() + 2
            + root_tag_text().len() + 9,
        crate::txml_elements::ser_meta(sv.metadata).len() == tag_text(
            "Metadata"@,
            meta_pairs(sv.metadata),
            true,
        ).len() + 13,
        crate::txml_structure::ser_struct(sv).subrange(0, decl_text().len() as int)
            == decl_text(),
        crate::txml_structure::ser_struct(sv)[decl_text().len() as int] == '\n',
        crate::txml_structure::ser_struct(sv)[decl_text().len() as int + 1] == '\n',
        crate::txml_structure::ser_struct(sv).subrange(
            decl_text().len() as int + 2,
            decl_text().len() as int + 2 + root_tag_text().len(),
        ) == root_tag_text(),
        forall|k: int|
            decl_text().len() + 2 + root_tag_text().len() <= k
                < crate::txml_structure::ser_preamble().len() ==> #[trigger]
                crate::txml_structure::ser_struct(sv)[k] != '<',
        crate::txml_structure::ser_struct(sv).subrange(
            crate::txml_structure::ser_preamble().len() as int,
            crate::txml_structure::ser_preamble().len() as int + tag_text(
                "Metadata"@,
                meta_pairs(sv.metadata),
                true,
            ).len(),
        ) == tag_text("Metadata"@, meta_pairs(sv.metadata), true),
        forall|k: int|
            crate::txml_structure::ser_preamble().len() + tag_text(
                "Metadata"@,
                meta_pairs(sv.metadata),
                true,
            ).len() <= k < crate::txml_structure::ser_preamble().len()
                + crate::txml_elements::ser_meta(sv.metadata).len() ==> #[trigger]
                crate::txml_structure::ser_struct(sv)[k] != '<',
        crate::txml_structure::ser_struct(sv).subrange(
            crate::txml_structure::ser_preamble().len() as int
                + crate::txml_elements::ser_meta(sv.metadata).len(),
            crate::txml_structure::ser_preamble().len() as int
                + crate::txml_elements::ser_meta(sv.metadata).len()
                + crate::txml_elements::ser_files(sv.files, 0).len(),
        ) == crate::txml_elements::ser_files(sv.files, 0),
        crate::txml_structure::ser_struct(sv).subrange(
            crate::txml_structure::ser_preamble().len() as int
                + crate::txml_elements::ser_meta(sv.metadata).len()
                + crate::txml_elements::ser_files(sv.files, 0).len(),
            crate::txml_structure::ser_preamble().len() as int
                + crate::txml_elements::ser_meta(sv.metadata).len()
                + crate::txml_elements::ser_files(sv.files, 0).len()
                + crate::txml_elements::ser_dirs(sv.dirs, 0).len(),
        ) == crate::txml_elements::ser_dirs(sv.dirs, 0),
        crate::txml_structure::ser_struct(sv).subrange(
            crate::txml_structure::ser_struct(sv).len() - 7,
            crate::txml_structure::ser_struct(sv).len() as int,
        ) == end_tag_text("Root"@),
{
    let s = crate::txml_structure::ser_struct(sv);
    let pre = crate::txml_structure::ser_preamble();
    let sm = crate::txml_elements::ser_meta(sv.metadata);
    let fpart = crate::txml_elements::ser_files(sv.files, 0);
    let dpart = crate::txml_elements::ser_dirs(sv.dirs, 0);
    lemma_preamble_shape();
    lemma_ser_meta_shape(sv.metadata);
    reveal_strlit("<?xml version=\"1.0\" encoding=\"UTF-8\" ?>");
    reveal_strlit("\n\n");
    reveal_strlit("\n        ");
    reveal_strlit("\n            ");
    reveal_strlit("</Root>");
    reveal_strlit("Root");
    let mt = tag_text("Metadata"@, meta_pairs(sv.metadata), true);
    assert("\n\n"@.len() == 2 && "\n        "@.len() == 9 && "\n            "@.len() == 13
        && "</Root>"@.len() == 7);
    assert("</Root>"@ =~= end_tag_text("Root"@));
    let u1 = pre + sm;
    let u2 = u1 + fpart;
    let u3 = u2 + dpart;
    assert(s == u3 + "</Root>"@);
    assert(forall|k: int| 0 <= k < pre.len() ==> #[trigger] s[k] == pre[k]) by {
        assert(forall|k: int|
            0 <= k < pre.len() ==> #[trigger] s[k] == u3[k] && u3[k] == u2[k] && u2[k] == u1[k]
                && u1[k] == pre[k]);
    }
    let v1 = decl_text() + "\n\n"@;
    let v2 = v1 + root_tag_text();
    assert(pre == v2 + "\n        "@);
    assert(forall|k: int| 0 <= k < pre.len() ==> #[trigger] pre[k] == (v2 + "\n        "@)[k]);
    assert(s.subrange(0, decl_text().len() as int) =~= decl_text()) by {
        assert(forall|k: int|
            0 <= k < decl_text().len() ==> #[trigger] s[k] == pre[k] && pre[k] == v2[k] && v2[k]
                == v1[k] && v1[k] == decl_text()[k]);
    }
    assert(s[decl_text().len() as int] == '\n' && s[decl_text().len() as int + 1] == '\n') by {
        assert(pre[decl_text().len() as int] == v2[decl_text().len() as int]);
        assert(v2[decl_text().len() as int] == v1[decl_text().len() as int]);
        assert(v1[decl_text().len() as int] == "\n\n"@[0]);
        assert(pre[decl_text().len() as int + 1] == v2[decl_text().len() as int + 1]);
        assert(v2[decl_text().len() as int + 1] == v1[decl_text().len() as int + 1]);
        assert(v1[decl_text().len() as int + 1] == "\n\n"@[1]);
    }
    assert(s.subrange(decl_text().len() as int + 2, decl_text().len() as int + 2
        + root_tag_text().len()) =~= root_tag_text()) by {
        assert(forall|k: int|
            decl_text().len() + 2 <= k < decl_text().len() + 2 + root_tag_text().len()
                ==> #[trigger] s[k] == pre[k] && pre[k] == v2[k] && v2[k] == root_tag_text()[k
                - v1.len()]);
    }
    assert(forall|k: int|
        decl_text().len() + 2 + root_tag_text().len() <= k < pre.len() ==> #[trigger] s[k]
            != '<') by {
        assert(forall|k: int|
            decl_text().len() + 2 + root_tag_text().len() <= k < pre.len() ==> #[trigger] s[k]
                == pre[k] && pre[k] == "\n        "@[k - v2.len()]);
        assert(forall|j: int| 0 <= j < 9 ==> #[trigger] "\n        "@[j] != '<');
    }
    assert(forall|k: int| pre.len() <= k < pre.len() + sm.len() ==> #[trigger] s[k] == sm[k
        - pre.len()]) by {
        assert(forall|k: int|
            pre.len() <= k < pre.len() + sm.len() ==> #[trigger] s[k] == u3[k] && u3[k] == u2[k]
                && u2[k] == u1[k] && u1[k] == sm[k - pre.len()]);
    }
    assert(s.subrange(pre.len() as int, pre.len() as int + mt.len()) =~= mt) by {
        assert(forall|k: int|
            pre.len() <= k < pre.len() + mt.len() ==> #[trigger] s[k] == sm[k - pre.len()]
                && sm[k - pre.len()] == (mt + "\n            "@)[k - pre.len()]);
    }
    assert(forall|k: int|
        pre.len() + mt.len() <= k < pre.len() + sm.len() ==> #[trigger] s[k] != '<') by {
        assert(forall|k: int|
            pre.len() + mt.len() <= k < pre.len() + sm.len() ==> #[trigger] s[k] == sm[k
                - pre.len()] && sm[k - pre.len()] == (mt + "\n            "@)[k - pre.len()]
                && (mt + "\n            "@)[k - pre.len()] == "\n            "@[k - pre.len()
                - mt.len()]);
        assert(forall|j: int| 0 <= j < 13 ==> #[trigger] "\n            "@[j] != '<');
    }
    assert(s.subrange(u1.len() as int, u1.len() as int + fpart.len()) =~= fpart) by {
        assert(forall|k: int|
            u1.len() <= k < u1.len() + fpart.len() ==> #[trigger] s[k] == u3[k] && u3[k] == u2[k]
                && u2[k] == fpart[k - u1.len()]);
    }
    assert(s.subrange(u2.len() as int, u2.len() as int + dpart.len()) =~= dpart) by {
        assert(forall|k: int|
            u2.len() <= k < u2.len() + dpart.len() ==> #[trigger] s[k] == u3[k] && u3[k]
                == dpart[k - u2.len()]);
    }
    assert(s.subrange(s.len() - 7, s.len() as int) =~= end_tag_text("Root"@)) by {
        assert(forall|k: int|
            u3.len() <= k < s.len() ==> #[trigger] s[k] == "</Root>"@[k - u3.len()]);
        assert(forall|j: int|
            0 <= j < 7 ==> #[trigger] "</Root>"@[j] == end_tag_text("Root"@)[j]);
    }
}

/// Round trip of a whole document (lossy as designed): parsing the
/// markup a well-formed tree renders rebuilds the same tree of names,
/// extensions, hook commands and metadata, in the same order, with each
/// file body recaptured as `reread_file` states it.  The
/// rename flag comes back at its default, and dedenting at instantiation
/// makes content equality byte-for-byte only for uniformly indented
/// bodies.
#[verifier::rlimit(100)]
#[verifier::spinoff_prover]
pub proof fn lemma_struct_markup_rebuilds(sv: crate::txml_structure::StructV)
    requires
        struct_wf(sv),
    ensures
        crate::txml_structure::spec_build(crate::txml_structure::ser_struct(sv)) == Result::<
            crate::txml_structure::StructV,
            crate::txml_structure::TxmlProcessorError,
        >::Ok(reread_struct(sv)),
{
    let s = crate::txml_structure::ser_struct(sv);
    let pre = crate::txml_structure::ser_preamble();
    let sm = crate::txml_elements::ser_meta(sv.metadata);
    let fpart = crate::txml_elements::ser_files(sv.files, 0);
    let dpart = crate::txml_elements::ser_dirs(sv.dirs, 0);
    let mt = tag_text("Metadata"@, meta_pairs(sv.metadata), true);
    lemma_struct_markup_regions(sv);
    reveal_strlit("Root");
    let bs0 = crate::txml_structure::init_build_state();
    // The declaration.
    lemma_read_decl(s, 0);
    let c1 = decl_text().len() as int;
    assert(crate::txml_structure::spec_build(s) == crate::txml_structure::spec_build_from(
        s,
        c1,
        bs0,
    ));
    // The blank line before the root tag.
    assert(s[c1 + 2] == '<') by {
        assert(s.subrange(c1 + 2, c1 + 2 + root_tag_text().len())[0] == s[c1 + 2]);
        assert(root_tag_text()[0] == '<');
    }
    assert(find_char_from(s, '<', c1) == c1 + 2) by {
        assert(forall|k: int| c1 <= k < c1 + 2 ==> #[trigger] s[k] != '<');
        lemma_find_char_range(s, '<', c1, 2);
    }
    lemma_build_skip_text(s, c1, bs0);
    // The root-open tag: its attributes touch nothing.
    lemma_read_root_tag(s, c1 + 2);
    lemma_root_attrs_noop(bs0.s);
    let c2 = c1 + 2 + root_tag_text().len() as int;
    assert(crate::txml_structure::spec_build_from(s, c1 + 2, bs0)
        == crate::txml_structure::spec_build_from(s, c2, bs0));
    // The indentation before the metadata element.
    assert(s[pre.len() as int] == '<') by {
        assert(s.subrange(pre.len() as int, pre.len() as int + mt.len())[0] == s[pre.len() as int]);
        assert(mt[0] == '<') by {
            assert(mt[0] == (seq!['<'] + "Metadata"@)[0]);
        }
    }
    assert(s[c2] != '<');
    assert(find_char_from(s, '<', c2) == pre.len()) by {
        lemma_find_char_range(s, '<', c2, 9);
    }
    lemma_build_skip_text(s, c2, bs0);
    // The metadata element.
    lemma_meta_markup(s, pre.len() as int, bs0, sv.metadata);
    let bsm = crate::txml_structure::BuildSt {
        s: crate::txml_structure::StructV { metadata: sv.metadata, ..bs0.s },
        ..bs0
    };
    let c3: int = pre.len() as int + mt.len();
    // The top-level files, over the indentation that precedes them.
    assert(forall|k: int| c3 <= k < c3 + 13 ==> #[trigger] s[k] != '<');
    assert(s[c3] != '<');
    assert(s.subrange(c3 + 13, c3 + 13 + fpart.len()) == fpart);
    lemma_files_markup_gap(s, c3, 13, bsm, sv.files, 0);
    let bsf = attach_files_from(bsm, sv.files, 0);
    lemma_attach_files_root(bsm, sv.files, 0);
    let c4: int = if sv.files.len() > 0 {
        c3 + 13 + fpart.len()  - 1
    } else {
        c3
    };
    let gd: int = if sv.files.len() > 0 {
        1
    } else {
        13
    };
    assert(crate::txml_structure::spec_build_from(s, c3, bsm)
        == crate::txml_structure::spec_build_from(s, c4, bsf) || sv.files.len() == 0);
    assert(forall|k: int| c4 <= k < c4 + gd ==> #[trigger] s[k] != '<') by {
        if sv.files.len() > 0 {
            lemma_ser_files_last(sv.files, 0);
            assert(s[c4] == fpart[fpart.len() - 1]) by {
                assert(s.subrange(c3 + 13, c3 + 13 + fpart.len())[fpart.len() - 1] == s[c3 + 13
                    + fpart.len() - 1]);
            }
        }
    }
    assert(s.subrange(c4 + gd, c4 + gd + dpart.len()) =~= dpart) by {
        assert(c4 + gd == c3 + 13 + fpart.len());
        assert(forall|j: int|
            0 <= j < dpart.len() ==> s.subrange(c3 + 13 + fpart.len(), c3 + 13 + fpart.len()
                + dpart.len())[j] == #[trigger] s.subrange(c4 + gd, c4 + gd + dpart.len())[j]);
    }
    assert(bsf.cur is None);
    lemma_dirs_markup_gap(s, c4, gd, bsf, sv.dirs, 0);
    let bsd = attach_dirs_from(bsf, sv.dirs, 0);
    lemma_attach_dirs_root(bsf, sv.dirs, 0);
    let c5: int = if sv.dirs.len() > 0 {
        c4 + gd + dpart.len() - 1
    } else {
        c4
    };
    let ge: int = if sv.dirs.len() > 0 {
        1
    } else {
        gd
    };
    // The root-close tag ends the parse.
    assert(c5 + ge == s.len() - 7);
    assert(s[s.len() - 7] == '<') by {
        assert(s.subrange(s.len() - 7, s.len() as int)[0] == s[s.len() - 7]);
        assert(end_tag_text("Root"@)[0] == (seq!['<', '/'] + "Root"@)[0]);
    }
    assert(forall|k: int| c5 <= k < c5 + ge ==> #[trigger] s[k] != '<') by {
        if sv.dirs.len() > 0 {
            lemma_ser_dirs_last(sv.dirs, 0);
            assert(s[c5] == dpart[dpart.len() - 1]) by {
                assert(s.subrange(c4 + gd, c4 + gd + dpart.len())[dpart.len() - 1] == s[c4 + gd
                    + dpart.len() - 1]);
            }
        }
    }
    assert(find_char_from(s, '<', c5) == s.len() - 7) by {
        lemma_find_char_range(s, '<', c5, ge);
    }
    lemma_build_skip_text(s, c5, bsd);
    assert(elem_name_ok("Root"@)) by {
        assert("Root"@.len() == 4);
        assert(forall|i: int|
            0 <= i < 4 ==> !is_ws_char(#[trigger] "Root"@[i]) && "Root"@[i] != '>'
                && "Root"@[i] != '"' && "Root"@[i] != '\'');
        assert("Root"@[0] == 'R');
        assert("Root"@[3] == 't');
    }
    lemma_read_end_tag(s, s.len() - 7, "Root"@);
    assert(crate::reader::classify("Root"@, crate::reader::StateV::End) == Result::<
        crate::reader::EventV,
        crate::reader::TxmlReaderError,
    >::Ok(crate::reader::EventV::Root(crate::reader::StateV::End)));
    assert(crate::txml_structure::spec_build_from(s, s.len() - 7, bsd) == Result::<
        crate::txml_structure::StructV,
        crate::txml_structure::TxmlProcessorError,
    >::Ok(bsd.s));
    assert(bsd.s == reread_struct(sv)) by {
        assert(bsd.s.files =~= reread_struct(sv).files) by {
            lemma_reread_files_elems(sv.files, 0);
            assert(bsd.s.files =~= reread_files(sv.files, 0));
        }
        assert(bsd.s.dirs =~= reread_dirs(sv.dirs, 0));
    }
}


// ---------------------------------------------------------------------------
// The variable-discovery pass over rendered markup
// ---------------------------------------------------------------------------
/// One non-variable, non-terminal event leaves the variable scan's
/// accumulator unchanged and moves its cursor.
proof fn lemma_vars_step(
    s: Seq<char>,
    pos: int,
    acc: Seq<crate::txml_elements::VarV>,
    ev: crate::reader::EventV,
    p2: int,
)
    requires
        crate::reader::spec_read_event(s, pos) == (
            Result::<crate::reader::EventV, crate::reader::TxmlReaderError>::Ok(ev),
            p2,
        ),
        pos < p2 <= s.len(),
        (match ev {
            crate::reader::EventV::Eof => false,
            crate::reader::EventV::Variable(st) => st is End,
            _ => true,
        }),
    ensures
        crate::txml_structure::spec_obtain_vars(s, pos, acc)
            == crate::txml_structure::spec_obtain_vars(s, p2, acc),
{
}

/// The variable scan steps over a text run.
proof fn lemma_vars_skip_text(s: Seq<char>, p: int, acc: Seq<crate::txml_elements::VarV>)
    requires
        0 <= p < s.len(),
        s[p] != '<',
    ensures
        crate::txml_structure::spec_obtain_vars(s, p, acc)
            == crate::txml_structure::spec_obtain_vars(s, find_char_from(s, '<', p), acc),
{
    crate::text::lemma_find_char_from_props(s, '<', p);
    let e = find_char_from(s, '<', p);
    assert(p < e) by {
        if e == p {
            assert(s[p] == '<');
        }
    }
}

/// The variable scan steps over one rendered file element.
#[verifier::rlimit(100)]
#[verifier::spinoff_prover]
proof fn lemma_vars_over_file(
    s: Seq<char>,
    pos: int,
    acc: Seq<crate::txml_elements::VarV>,
    f: FileV,
)
    requires
        file_wf(f),
        0 <= pos,
        pos + crate::txml_elements::ser_file(f).len() <= s.len(),
        s.subrange(pos, pos + crate::txml_elements::ser_file(f).len())
            == crate::txml_elements::ser_file(f),
    ensures
        crate::txml_structure::spec_obtain_vars(s, pos, acc)
            == crate::txml_structure::spec_obtain_vars(
            s,
            pos + crate::txml_elements::ser_file(f).len() - 1,
            acc,
        ),
{
    lemma_ser_file_shape(f);
    lemma_file_pairs_ok(f);
    let w = crate::txml_elements::ser_file(f);
    let tag = tag_text("File"@, file_pairs(f), false);
    let body = file_body(f);
    let endt = end_tag_text("File"@);
    let p1 = pos + tag.len();
    let p2 = p1 + body.len();
    let p3 = p2 + endt.len();
    assert(forall|k: int| pos <= k < pos + w.len() ==> #[trigger] s[k] == w[k - pos]) by {
        assert(forall|k: int|
            pos <= k < pos + w.len() ==> #[trigger] s[k] == s.subrange(pos, pos + w.len())[k
                - pos]);
    }
    let w1 = tag + body;
    let w2 = w1 + endt;
    assert(w == w2 + seq!['\n']);
    assert forall|k: int| pos <= k < p1 implies #[trigger] s[k] == tag[k - pos] by {
        assert(s[k] == w[k - pos]);
        assert(w[k - pos] == w2[k - pos] && w2[k - pos] == w1[k - pos] && w1[k - pos] == tag[k
            - pos]);
    }
    assert forall|k: int| p1 <= k < p2 implies #[trigger] s[k] == body[k - p1] by {
        assert(s[k] == w[k - pos]);
        assert(w[k - pos] == w2[k - pos] && w2[k - pos] == w1[k - pos] && w1[k - pos] == body[k
            - pos - tag.len()]);
    }
    assert forall|k: int| p2 <= k < p3 implies #[trigger] s[k] == endt[k - p2] by {
        assert(s[k] == w[k - pos]);
        assert(w[k - pos] == w2[k - pos] && w2[k - pos] == endt[k - pos - w1.len()]);
    }
    assert(s.subrange(pos, pos + tag.len()) =~= tag);
    lemma_read_tag(s, pos, "File"@, file_pairs(f), false);
    reveal_strlit("Root");
    reveal_strlit("Metadata");
    reveal_strlit("Variable");
    reveal_strlit("Directory");
    reveal_strlit("File");
    assert("File"@ != "Root"@) by {
        assert("File"@[0] == 'F' && "Root"@[0] == 'R');
    }
    assert("Metadata"@.len() == 8 && "Variable"@.len() == 8 && "Directory"@.len() == 9
        && "File"@.len() == 4);
    assert(crate::reader::classify("File"@, crate::reader::StateV::Start(file_pairs(f)))
        == Result::<crate::reader::EventV, crate::reader::TxmlReaderError>::Ok(
        crate::reader::EventV::File(crate::reader::StateV::Start(file_pairs(f))),
    ));
    lemma_vars_step(
        s,
        pos,
        acc,
        crate::reader::EventV::File(crate::reader::StateV::Start(file_pairs(f))),
        p1,
    );
    assert(s[p1] == body[0]);
    assert(body[0] == '\n');
    lemma_escape_no_specials(f.content);
    assert(find_char_from(s, '<', p1) == p2) by {
        assert(forall|k: int| p1 <= k < p2 ==> #[trigger] s[k] != '<') by {
            assert(forall|j: int| 0 <= j < body.len() ==> #[trigger] body[j] != '<') by {
                assert(forall|j: int|
                    1 <= j < 1 + escape_xml_seq(f.content).len() ==> #[trigger] body[j]
                        == escape_xml_seq(f.content)[j - 1]);
                assert(body[0] == '\n' && body[body.len() - 1] == '\n');
            }
        }
        lemma_find_char_range(s, '<', p1, body.len() as int);
        assert(s[p2] == endt[0]);
        assert(endt[0] == '<') by {
            assert(endt[0] == (seq!['<', '/'] + "File"@)[0]);
        }
    }
    lemma_vars_skip_text(s, p1, acc);
    assert(s.subrange(p2, p2 + endt.len()) =~= endt);
    lemma_read_end_tag(s, p2, "File"@);
    assert(crate::reader::classify("File"@, crate::reader::StateV::End) == Result::<
        crate::reader::EventV,
        crate::reader::TxmlReaderError,
    >::Ok(crate::reader::EventV::File(crate::reader::StateV::End)));
    lemma_vars_step(
        s,
        p2,
        acc,
        crate::reader::EventV::File(crate::reader::StateV::End),
        p3,
    );
}

/// The variable scan steps over the rendered files of `fl` from `i` on,
/// entered at the head of the `g` non-`<` characters before them.
#[verifier::rlimit(100)]
#[verifier::spinoff_prover]
proof fn lemma_vars_over_files(
    s: Seq<char>,
    p: int,
    g: int,
    acc: Seq<crate::txml_elements::VarV>,
    fl: Seq<FileV>,
    i: int,
)
    requires
        forall|j: int| i <= j < fl.len() ==> file_wf(#[trigger] fl[j]),
        0 <= i <= fl.len(),
        g >= 1,
        0 <= p < s.len(),
        forall|k: int| p <= k < p + g ==> #[trigger] s[k] != '<',
        p + g + crate::txml_elements::ser_files(fl, i).len() <= s.len(),
        s.subrange(p + g, p + g + crate::txml_elements::ser_files(fl, i).len())
            == crate::txml_elements::ser_files(fl, i),
    ensures
        i < fl.len() ==> crate::txml_structure::spec_obtain_vars(s, p, acc)
            == crate::txml_structure::spec_obtain_vars(
            s,
            p + g + crate::txml_elements::ser_files(fl, i).len() - 1,
            acc,
        ),
    decreases fl.len() - i,
{
    if i < fl.len() {
        let head = crate::txml_elements::ser_file(fl[i]);
        let whole = crate::txml_elements::ser_files(fl, i);
        let rest = crate::txml_elements::ser_files(fl, i + 1);
        assert(whole == head + rest);
        assert(forall|k: int|
            p + g <= k < p + g + whole.len() ==> #[trigger] s[k] == whole[k - p - g]) by {
            assert(forall|k: int|
                p + g <= k < p + g + whole.len() ==> #[trigger] s[k] == s.subrange(
                    p + g,
                    p + g + whole.len(),
                )[k - p - g]);
        }
        lemma_ser_file_shape(fl[i]);
        assert(head.len() >= 2);
        assert(head[0] == '<') by {
            let tag = tag_text("File"@, file_pairs(fl[i]), false);
            assert(head[0] == tag[0]);
            assert(tag[0] == (seq!['<'] + "File"@)[0]);
        }
        assert(s[p + g] == '<') by {
            assert(whole[0] == head[0]);
        }
        assert(find_char_from(s, '<', p) == p + g) by {
            lemma_find_char_range(s, '<', p, g);
        }
        assert(s[p] != '<');
        lemma_vars_skip_text(s, p, acc);
        assert(s.subrange(p + g, p + g + head.len()) =~= head) by {
            assert forall|k: int| p + g <= k < p + g + head.len() implies #[trigger] s[k]
                == head[k - p - g] by {
                assert(s[k] == whole[k - p - g]);
                assert(whole[k - p - g] == head[k - p - g]);
            }
        }
        lemma_vars_over_file(s, p + g, acc, fl[i]);
        let p1 = p + g + head.len() - 1;
        assert(s[p1] == '\n') by {
            assert(whole[head.len() - 1] == head[head.len() - 1]);
            assert(head[head.len() - 1] == '\n') by {
                let tail = end_tag_text("File"@) + seq!['\n'];
                assert(head == (tag_text("File"@, file_pairs(fl[i]), false) + file_body(fl[i]))
                    + tail);
                assert(head[head.len() - 1] == tail[tail.len() - 1]);
            }
        }
        assert(s.subrange(p1 + 1, p1 + 1 + rest.len()) =~= rest) by {
            assert forall|k: int| p1 + 1 <= k < p1 + 1 + rest.len() implies #[trigger] s[k]
                == rest[k - p1 - 1] by {
                assert(s[k] == whole[k - p - g]);
                assert(whole[k - p - g] == rest[k - p - g - head.len()]);
            }
        }
        if i + 1 < fl.len() {
            lemma_vars_over_files(s, p1, 1, acc, fl, i + 1);
        } else {
            assert(rest.len() == 0);
        }
    }
}

/// The variable scan steps over a directory's open tag.
#[verifier::rlimit(100)]
#[verifier::spinoff_prover]
proof fn lemma_vars_dir_open(
    s: Seq<char>,
    pos: int,
    acc: Seq<crate::txml_elements::VarV>,
    d: DirV,
)
    requires
        attr_value_ok(d.name),
        attr_value_ok(d.in_command),
        attr_value_ok(d.out_command),
        0 <= pos,
        pos + tag_text("Directory"@, dir_pairs(d), false).len() <= s.len(),
        s.subrange(pos, pos + tag_text("Directory"@, dir_pairs(d), false).len()) == tag_text(
            "Directory"@,
            dir_pairs(d),
            false,
        ),
    ensures
        crate::txml_structure::spec_obtain_vars(s, pos, acc)
            == crate::txml_structure::spec_obtain_vars(
            s,
            pos + tag_text("Directory"@, dir_pairs(d), false).len(),
            acc,
        ),
{
    lemma_dir_pairs_ok(d);
    lemma_read_tag(s, pos, "Directory"@, dir_pairs(d), false);
    reveal_strlit("Root");
    reveal_strlit("Metadata");
    reveal_strlit("Variable");
    reveal_strlit("Directory");
    assert("Root"@.len() == 4 && "Metadata"@.len() == 8 && "Variable"@.len() == 8
        && "Directory"@.len() == 9);
    assert(crate::reader::classify("Directory"@, crate::reader::StateV::Start(dir_pairs(d)))
        == Result::<crate::reader::EventV, crate::reader::TxmlReaderError>::Ok(
        crate::reader::EventV::Directory(crate::reader::StateV::Start(dir_pairs(d))),
    ));
    lemma_vars_step(
        s,
        pos,
        acc,
        crate::reader::EventV::Directory(crate::reader::StateV::Start(dir_pairs(d))),
        pos + tag_text("Directory"@, dir_pairs(d), false).len() as int,
    );
}

/// The variable scan steps from the newline before a directory's end tag
/// past that tag.
#[verifier::rlimit(100)]
#[verifier::spinoff_prover]
proof fn lemma_vars_dir_close(s: Seq<char>, pc: int, acc: Seq<crate::txml_elements::VarV>)
    requires
        0 <= pc < s.len(),
        s[pc] == '\n',
        pc + 1 + end_tag_text("Directory"@).len() <= s.len(),
        s.subrange(pc + 1, pc + 1 + end_tag_text("Directory"@).len()) == end_tag_text(
            "Directory"@,
        ),
    ensures
        crate::txml_structure::spec_obtain_vars(s, pc, acc)
            == crate::txml_structure::spec_obtain_vars(
            s,
            pc + 1 + end_tag_text("Directory"@).len(),
            acc,
        ),
{
    let endt = end_tag_text("Directory"@);
    reveal_strlit("Root");
    reveal_strlit("Metadata");
    reveal_strlit("Variable");
    reveal_strlit("Directory");
    assert("Root"@.len() == 4 && "Metadata"@.len() == 8 && "Variable"@.len() == 8
        && "Directory"@.len() == 9);
    assert(elem_name_ok("Directory"@)) by {
        lemma_dir_pairs_ok(
            DirV {
                name: Seq::<char>::empty(),
                in_command: Seq::<char>::empty(),
                out_command: Seq::<char>::empty(),
                files: Seq::<FileV>::empty(),
                dirs: Seq::<DirV>::empty(),
            },
        );
    }
    assert(s[pc + 1] == '<') by {
        assert(s.subrange(pc + 1, pc + 1 + endt.len())[0] == s[pc + 1]);
        assert(endt[0] == (seq!['<', '/'] + "Directory"@)[0]);
    }
    assert(find_char_from(s, '<', pc + 1) == pc + 1);
    assert(find_char_from(s, '<', pc) == pc + 1);
    lemma_vars_skip_text(s, pc, acc);
    lemma_read_end_tag(s, pc + 1, "Directory"@);
    assert(crate::reader::classify("Directory"@, crate::reader::StateV::End) == Result::<
        crate::reader::EventV,
        crate::reader::TxmlReaderError,
    >::Ok(crate::reader::EventV::Directory(crate::reader::StateV::End)));
    lemma_vars_step(
        s,
        pc + 1,
        acc,
        crate::reader::EventV::Directory(crate::reader::StateV::End),
        pc + 1 + endt.len() as int,
    );
}

/// The variable scan steps over a directory's children, from the
/// newline after its open tag to the newline before its end tag.
#[verifier::rlimit(100)]
#[verifier::spinoff_prover]
proof fn lemma_vars_dir_children(
    s: Seq<char>,
    pa: int,
    acc: Seq<crate::txml_elements::VarV>,
    d: DirV,
)
    requires
        dir_wf(d),
        0 <= pa < s.len(),
        s[pa] == '\n',
        pa + 1 + crate::txml_elements::ser_files(d.files, 0).len() + crate::txml_elements::ser_dirs(
            d.dirs,
            0,
        ).len() < s.len(),
        s.subrange(pa + 1, pa + 1 + crate::txml_elements::ser_files(d.files, 0).len())
            == crate::txml_elements::ser_files(d.files, 0),
        s.subrange(
            pa + 1 + crate::txml_elements::ser_files(d.files, 0).len(),
            pa + 1 + crate::txml_elements::ser_files(d.files, 0).len()
                + crate::txml_elements::ser_dirs(d.dirs, 0).len(),
        ) == crate::txml_elements::ser_dirs(d.dirs, 0),
    ensures
        crate::txml_structure::spec_obtain_vars(s, pa, acc)
            == crate::txml_structure::spec_obtain_vars(
            s,
            pa + crate::txml_elements::ser_files(d.files, 0).len()
                + crate::txml_elements::ser_dirs(d.dirs, 0).len(),
            acc,
        ),
    decreases d, 1int,
{
    let files_part = crate::txml_elements::ser_files(d.files, 0);
    let dirs_part = crate::txml_elements::ser_dirs(d.dirs, 0);
    let pb = pa + files_part.len();
    assert(forall|j: int| 0 <= j < d.files.len() ==> file_wf(#[trigger] d.files[j]));
    lemma_vars_over_files(s, pa, 1, acc, d.files, 0);
    if d.files.len() == 0 {
        assert(files_part.len() == 0);
    }
    assert(s[pb] == '\n') by {
        if files_part.len() > 0 {
            assert(s[pb] == files_part[files_part.len() - 1]) by {
                assert(s.subrange(pa + 1, pa + 1 + files_part.len())[files_part.len() - 1] == s[pa
                    + files_part.len()]);
            }
            lemma_ser_files_last(d.files, 0);
        }
    }
    assert(forall|j: int| 0 <= j < d.dirs.len() ==> dir_wf(#[trigger] d.dirs[j]));
    lemma_vars_over_dirs(s, pb, 1, acc, d.dirs, 0);
    if d.dirs.len() == 0 {
        assert(dirs_part.len() == 0);
    }
}

/// The variable scan steps over one rendered directory subtree.
#[verifier::rlimit(100)]
#[verifier::spinoff_prover]
proof fn lemma_vars_over_dir(
    s: Seq<char>,
    pos: int,
    acc: Seq<crate::txml_elements::VarV>,
    d: DirV,
)
    requires
        dir_wf(d),
        0 <= pos,
        pos + crate::txml_elements::ser_dir(d).len() <= s.len(),
        s.subrange(pos, pos + crate::txml_elements::ser_dir(d).len())
            == crate::txml_elements::ser_dir(d),
    ensures
        crate::txml_structure::spec_obtain_vars(s, pos, acc)
            == crate::txml_structure::spec_obtain_vars(
            s,
            pos + crate::txml_elements::ser_dir(d).len() - 1,
            acc,
        ),
    decreases d, 2int,
{
    lemma_ser_dir_shape(d);
    lemma_dir_markup_regions(s, pos, d);
    let w = crate::txml_elements::ser_dir(d);
    let tag = tag_text("Directory"@, dir_pairs(d), false);
    let files_part = crate::txml_elements::ser_files(d.files, 0);
    let dirs_part = crate::txml_elements::ser_dirs(d.dirs, 0);
    let endt = end_tag_text("Directory"@);
    let pa = pos + tag.len();
    let pb = pa + files_part.len();
    let pc = pb + dirs_part.len();
    assert(s.subrange(pos, pos + tag.len()) =~= tag);
    lemma_vars_dir_open(s, pos, acc, d);
    assert(s.subrange(pa + 1, pa + 1 + files_part.len()) =~= files_part);
    assert(s.subrange(pb + 1, pb + 1 + dirs_part.len()) =~= dirs_part);
    lemma_vars_dir_children(s, pa, acc, d);
    assert(s[pc] == '\n') by {
        if dirs_part.len() > 0 {
            assert(s[pc] == dirs_part[dirs_part.len() - 1]) by {
                assert(s.subrange(pb + 1, pb + 1 + dirs_part.len())[dirs_part.len() - 1] == s[pb
                    + dirs_part.len()]);
            }
            lemma_ser_dirs_last(d.dirs, 0);
        } else {
            if files_part.len() > 0 {
                assert(s[pc] == files_part[files_part.len() - 1]) by {
                    assert(s.subrange(pa + 1, pa + 1 + files_part.len())[files_part.len() - 1]
                        == s[pa + files_part.len()]);
                }
                lemma_ser_files_last(d.files, 0);
            }
        }
    }
    assert(s.subrange(pc + 1, pc + 1 + endt.len()) =~= endt);
    lemma_vars_dir_close(s, pc, acc);
    assert(pc + 1 + endt.len() == pos + w.len() - 1);
}

/// The variable scan steps over the rendered directories of `ds` from
/// `i` on, entered at the head of the `g` non-`<` characters before
/// them.
#[verifier::rlimit(100)]
#[verifier::spinoff_prover]
proof fn lemma_vars_over_dirs(
    s: Seq<char>,
    p: int,
    g: int,
    acc: Seq<crate::txml_elements::VarV>,
    ds: Seq<DirV>,
    i: int,
)
    requires
        forall|j: int| i <= j < ds.len() ==> dir_wf(#[trigger] ds[j]),
        0 <= i <= ds.len(),
        g >= 1,
        0 <= p < s.len(),
        forall|k: int| p <= k < p + g ==> #[trigger] s[k] != '<',
        p + g + crate::txml_elements::ser_dirs(ds, i).len() <= s.len(),
        s.subrange(p + g, p + g + crate::txml_elements::ser_dirs(ds, i).len())
            == crate::txml_elements::ser_dirs(ds, i),
    ensures
        i < ds.len() ==> crate::txml_structure::spec_obtain_vars(s, p, acc)
            == crate::txml_structure::spec_obtain_vars(
            s,
            p + g + crate::txml_elements::ser_dirs(ds, i).len() - 1,
            acc,
        ),
    decreases ds, ds.len() - i,
{
    if i < ds.len() {
        let head = crate::txml_elements::ser_dir(ds[i]);
        let whole = crate::txml_elements::ser_dirs(ds, i);
        let rest = crate::txml_elements::ser_dirs(ds, i + 1);
        assert(whole == head + rest);
        assert(forall|k: int|
            p + g <= k < p + g + whole.len() ==> #[trigger] s[k] == whole[k - p - g]) by {
            assert(forall|k: int|
                p + g <= k < p + g + whole.len() ==> #[trigger] s[k] == s.subrange(
                    p + g,
                    p + g + whole.len(),
                )[k - p - g]);
        }
        lemma_ser_dir_shape(ds[i]);
        assert(head.len() >= 2);
        assert(head[0] == '<') by {
            let tag = tag_text("Directory"@, dir_pairs(ds[i]), false);
            assert(head[0] == tag[0]);
            assert(tag[0] == (seq!['<'] + "Directory"@)[0]);
        }
        assert(s[p + g] == '<') by {
            assert(whole[0] == head[0]);
        }
        assert(find_char_from(s, '<', p) == p + g) by {
            lemma_find_char_range(s, '<', p, g);
        }
        assert(s[p] != '<');
        lemma_vars_skip_text(s, p, acc);
        assert(s.subrange(p + g, p + g + head.len()) =~= head) by {
            assert forall|k: int| p + g <= k < p + g + head.len() implies #[trigger] s[k]
                == head[k - p - g] by {
                assert(s[k] == whole[k - p - g]);
                assert(whole[k - p - g] == head[k - p - g]);
            }
        }
        lemma_vars_over_dir(s, p + g, acc, ds[i]);
        let p1 = p + g + head.len() - 1;
        assert(s[p1] == '\n') by {
            assert(whole[head.len() - 1] == head[head.len() - 1]);
            assert(head[head.len() - 1] == '\n') by {
                let front = tag_text("Directory"@, dir_pairs(ds[i]), false) + seq!['\n']
                    + crate::txml_elements::ser_files(ds[i].files, 0)
                    + crate::txml_elements::ser_dirs(ds[i].dirs, 0) + end_tag_text("Directory"@);
                assert(head == front + seq!['\n']);
                assert(head[head.len() - 1] == seq!['\n'][0]);
            }
        }
        assert(s.subrange(p1 + 1, p1 + 1 + rest.len()) =~= rest) by {
            assert forall|k: int| p1 + 1 <= k < p1 + 1 + rest.len() implies #[trigger] s[k]
                == rest[k - p1 - 1] by {
                assert(s[k] == whole[k - p - g]);
                assert(whole[k - p - g] == rest[k - p - g - head.len()]);
            }
        }
        if i + 1 < ds.len() {
            lemma_vars_over_dirs(s, p1, 1, acc, ds, i + 1);
        } else {
            assert(rest.len() == 0);
        }
    }
}

/// A rendered document declares no variables: the discovery pass accepts
/// it and collects nothing.
#[verifier::rlimit(100)]
#[verifier::spinoff_prover]
pub proof fn lemma_no_vars_in_markup(sv: crate::txml_structure::StructV)
    requires
        struct_wf(sv),
    ensures
        crate::txml_structure::spec_obtain_vars(
            crate::txml_structure::ser_struct(sv),
            0,
            Seq::<crate::txml_elements::VarV>::empty(),
        ) == Result::<
            Seq<crate::txml_elements::VarV>,
            crate::txml_structure::TxmlProcessorError,
        >::Ok(Seq::<crate::txml_elements::VarV>::empty()),
{
    let s = crate::txml_structure::ser_struct(sv);
    let pre = crate::txml_structure::ser_preamble();
    let sm = crate::txml_elements::ser_meta(sv.metadata);
    let fpart = crate::txml_elements::ser_files(sv.files, 0);
    let dpart = crate::txml_elements::ser_dirs(sv.dirs, 0);
    let mt = tag_text("Metadata"@, meta_pairs(sv.metadata), true);
    let acc = Seq::<crate::txml_elements::VarV>::empty();
    lemma_struct_markup_regions(sv);
    reveal_strlit("Root");
    lemma_read_decl(s, 0);
    let c1 = decl_text().len() as int;
    lemma_vars_step(s, 0, acc, crate::reader::EventV::Declaration, c1);
    assert(s[c1 + 2] == '<') by {
        assert(s.subrange(c1 + 2, c1 + 2 + root_tag_text().len())[0] == s[c1 + 2]);
        assert(root_tag_text()[0] == '<');
    }
    assert(find_char_from(s, '<', c1) == c1 + 2) by {
        assert(forall|k: int| c1 <= k < c1 + 2 ==> #[trigger] s[k] != '<');
        lemma_find_char_range(s, '<', c1, 2);
    }
    lemma_vars_skip_text(s, c1, acc);
    lemma_read_root_tag(s, c1 + 2);
    let c2 = c1 + 2 + root_tag_text().len() as int;
    lemma_vars_step(
        s,
        c1 + 2,
        acc,
        crate::reader::EventV::Root(crate::reader::StateV::Start(root_pairs())),
        c2,
    );
    assert(s[pre.len() as int] == '<') by {
        assert(s.subrange(pre.len() as int, pre.len() as int + mt.len())[0] == s[pre.len() as int]);
        assert(mt[0] == '<') by {
            assert(mt[0] == (seq!['<'] + "Metadata"@)[0]);
        }
    }
    assert(s[c2] != '<');
    assert(find_char_from(s, '<', c2) == pre.len()) by {
        lemma_find_char_range(s, '<', c2, 9);
    }
    lemma_vars_skip_text(s, c2, acc);
    lemma_meta_pairs_ok(sv.metadata);
    lemma_read_tag(s, pre.len() as int, "Metadata"@, meta_pairs(sv.metadata), true);
    reveal_strlit("Metadata");
    assert("Root"@.len() == 4 && "Metadata"@.len() == 8);
    assert(crate::reader::classify("Metadata"@, crate::reader::StateV::Empty(meta_pairs(
        sv.metadata,
    ))) == Result::<crate::reader::EventV, crate::reader::TxmlReaderError>::Ok(
        crate::reader::EventV::Metadata(crate::reader::StateV::Empty(meta_pairs(sv.metadata))),
    ));
    let c3: int = pre.len() as int + mt.len();
    lemma_vars_step(
        s,
        pre.len() as int,
        acc,
        crate::reader::EventV::Metadata(crate::reader::StateV::Empty(meta_pairs(sv.metadata))),
        c3,
    );
    assert(forall|k: int| c3 <= k < c3 + 13 ==> #[trigger] s[k] != '<');
    assert(s.subrange(c3 + 13, c3 + 13 + fpart.len()) == fpart);
    lemma_vars_over_files(s, c3, 13, acc, sv.files, 0);
    let c4: int = if sv.files.len() > 0 {
        c3 + 13 + fpart.len() - 1
    } else {
        c3
    };
    let gd: int = if sv.files.len() > 0 {
        1
    } else {
        13
    };
    assert(forall|k: int| c4 <= k < c4 + gd ==> #[trigger] s[k] != '<') by {
        if sv.files.len() > 0 {
            lemma_ser_files_last(sv.files, 0);
            assert(s[c4] == fpart[fpart.len() - 1]) by {
                assert(s.subrange(c3 + 13, c3 + 13 + fpart.len())[fpart.len() - 1] == s[c3 + 13
                    + fpart.len() - 1]);
            }
        }
    }
    assert(s.subrange(c4 + gd, c4 + gd + dpart.len()) =~= dpart) by {
        assert(c4 + gd == c3 + 13 + fpart.len());
        assert(forall|j: int|
            0 <= j < dpart.len() ==> s.subrange(c3 + 13 + fpart.len(), c3 + 13 + fpart.len()
                + dpart.len())[j] == #[trigger] s.subrange(c4 + gd, c4 + gd + dpart.len())[j]);
    }
    lemma_vars_over_dirs(s, c4, gd, acc, sv.dirs, 0);
    let c5: int = if sv.dirs.len() > 0 {
        c4 + gd + dpart.len() - 1
    } else {
        c4
    };
    let ge: int = if sv.dirs.len() > 0 {
        1
    } else {
        gd
    };
    assert(c5 + ge == s.len() - 7);
    assert(s[s.len() - 7] == '<') by {
        assert(s.subrange(s.len() - 7, s.len() as int)[0] == s[s.len() - 7]);
        assert(end_tag_text("Root"@)[0] == (seq!['<', '/'] + "Root"@)[0]);
    }
    assert(forall|k: int| c5 <= k < c5 + ge ==> #[trigger] s[k] != '<') by {
        if sv.dirs.len() > 0 {
            lemma_ser_dirs_last(sv.dirs, 0);
            assert(s[c5] == dpart[dpart.len() - 1]) by {
                assert(s.subrange(c4 + gd, c4 + gd + dpart.len())[dpart.len() - 1] == s[c4 + gd
                    + dpart.len() - 1]);
            }
        }
    }
    assert(find_char_from(s, '<', c5) == s.len() - 7) by {
        lemma_find_char_range(s, '<', c5, ge);
    }
    lemma_vars_skip_text(s, c5, acc);
    assert(elem_name_ok("Root"@)) by {
        assert("Root"@.len() == 4);
        assert(forall|i: int|
            0 <= i < 4 ==> !is_ws_char(#[trigger] "Root"@[i]) && "Root"@[i] != '>'
                && "Root"@[i] != '"' && "Root"@[i] != '\'');
        assert("Root"@[0] == 'R');
        assert("Root"@[3] == 't');
    }
    lemma_read_end_tag(s, s.len() - 7, "Root"@);
    assert(crate::reader::classify("Root"@, crate::reader::StateV::End) == Result::<
        crate::reader::EventV,
        crate::reader::TxmlReaderError,
    >::Ok(crate::reader::EventV::Root(crate::reader::StateV::End)));
    lemma_vars_step(
        s,
        s.len() - 7,
        acc,
        crate::reader::EventV::Root(crate::reader::StateV::End),
        s.len() as int,
    );
    assert(crate::txml_structure::spec_obtain_vars(s, s.len() as int, acc) == Result::<
        Seq<crate::txml_elements::VarV>,
        crate::txml_structure::TxmlProcessorError,
    >::Ok(acc));
}

/// Round trip at the public parsing entry: the whole two-pass parse of a
/// well-formed tree's rendered markup — variable discovery, resolution,
/// substitution, tree building — rebuilds the tree as reread, whatever
/// answers are supplied, since a rendered document declares no
/// variables.
pub proof fn lemma_parse_of_markup(sv: crate::txml_structure::StructV, answers: Seq<Seq<char>>)
    requires
        struct_wf(sv),
    ensures
        crate::txml_structure::spec_parse(crate::txml_structure::ser_struct(sv), answers)
            == Result::<
            crate::txml_structure::StructV,
            crate::txml_structure::TxmlProcessorError,
        >::Ok(reread_struct(sv)),
{
    lemma_no_vars_in_markup(sv);
    lemma_struct_markup_rebuilds(sv);
    let resolved = crate::txml_structure::spec_resolve_vars(
        Seq::<crate::txml_elements::VarV>::empty(),
        answers,
        0,
    );
    assert(resolved =~= Seq::<crate::txml_elements::VarV>::empty());
    assert(crate::txml_structure::spec_substitute(
        crate::txml_structure::ser_struct(sv),
        resolved,
    ) == crate::txml_structure::ser_struct(sv));
}


// ---------------------------------------------------------------------------
// Content preservation under uniform indentation
// ---------------------------------------------------------------------------
/// Content in dedented normal form: not purely whitespace, free of
/// carriage returns, minimum indentation zero across the non-blank lines,
/// and blank lines empty.  Uniformly indented text captured verbatim from
/// a file is of this form.
pub open spec fn dedent_normal(c: Seq<char>) -> bool {
    &&& !crate::text::is_blank(c)
    &&& (forall|i: int| 0 <= i < c.len() ==> #[trigger] c[i] != '\r')
    &&& crate::normalize::min_indent(crate::text::split_char_seq(c, '\n')) == 0
    &&& (forall|k: int|
        0 <= k < crate::text::split_char_seq(c, '\n').len() && crate::text::is_blank(
            #[trigger] crate::text::split_char_seq(c, '\n')[k],
        ) ==> crate::text::split_char_seq(c, '\n')[k] == Seq::<char>::empty())
}

/// Dedenting the newline-wrapped escaped body of normal-form content
/// gives the escaped content back: nothing is stripped and the lines
/// rejoin exactly.
#[verifier::rlimit(100)]
#[verifier::spinoff_prover]
proof fn lemma_dedent_of_reread_body(c: Seq<char>)
    requires
        dedent_normal(c),
    ensures
        crate::normalize::dedent(seq!['\n'] + escape_xml_seq(c) + seq!['\n']) == escape_xml_seq(
            c,
        ),
{
    let e = escape_xml_seq(c);
    let body = seq!['\n'] + e + seq!['\n'];
    let clines = crate::text::split_char_seq(c, '\n');
    let elines = crate::text::split_char_seq(e, '\n');
    lemma_file_body_blank(c);
    assert(!crate::text::is_blank(body));
    // The split of the wrapped body: one empty lead line, the escaped
    // content's lines, one empty last segment from the final newline.
    assert(body[0] == '\n');
    assert(crate::text::find_char_from(body, '\n', 0) == 0);
    assert(body.skip(1) =~= e + seq!['\n']);
    crate::text::lemma_split_snoc_sep(e, '\n');
    assert(crate::text::split_char_seq(body, '\n') =~= seq![Seq::<char>::empty()] + elines.push(
        Seq::<char>::empty(),
    )) by {
        assert(body.take(0) =~= Seq::<char>::empty());
    }
    assert(body.last() == '\n');
    let raw = crate::text::raw_lines_of(body);
    assert(raw =~= seq![Seq::<char>::empty()] + elines);
    // No carriage returns anywhere, so line splitting strips nothing.
    crate::normalize::lemma_escape_no_char(c, '\r');
    crate::text::lemma_split_no_char(e, '\n', '\r');
    assert(crate::text::lines_of(body) =~= raw) by {
        assert forall|k: int| 0 <= k < raw.len() implies #[trigger] crate::text::lines_of(
            body,
        )[k] == raw[k] by {
            assert(crate::text::lines_of(body)[k] == crate::text::strip_cr(raw[k]));
            if k == 0 {
                assert(raw[0] =~= Seq::<char>::empty());
            } else {
                assert(raw[k] == elines[k - 1]);
                if raw[k].len() > 0 {
                    assert(elines[k - 1][raw[k].len() - 1] != '\r');
                }
            }
        }
    }
    let ls = crate::text::lines_of(body).skip(1);
    assert(ls =~= elines);
    // Escaping maps over the lines.
    crate::normalize::lemma_escape_split(c);
    assert(elines.len() == clines.len());
    assert(forall|k: int|
        0 <= k < clines.len() ==> #[trigger] elines[k] == escape_xml_seq(clines[k]));
    crate::text::lemma_split_len_ge1(c, '\n');
    if ls.len() == 1 {
        // A single remaining line: it is the whole escaped content, and
        // it has no leading whitespace to trim.
        assert(clines.len() == 1);
        assert(clines[0] == c) by {
            let j = crate::text::find_char_from(c, '\n', 0);
            crate::text::lemma_find_char_from_props(c, '\n', 0);
            if 0 <= j < c.len() {
                crate::text::lemma_split_len_ge1(c.skip(j + 1), '\n');
                assert(clines.len() >= 2);
            }
        }
        assert(ls[0] == e);
        assert(c.len() > 0);
        assert(crate::normalize::min_indent(clines) == 0);
        assert(crate::text::count_leading_ws(c) == 0) by {
            assert(crate::normalize::min_indent(clines.skip(1)) == usize::MAX as nat) by {
                assert(clines.skip(1) =~= Seq::<Seq<char>>::empty());
            }
        }
        assert(!is_ws_char(c[0]));
        crate::normalize::lemma_escape_head_nonws(c);
        assert(crate::normalize::dedent(body) == crate::text::trim_start(ls[0]));
        assert(crate::text::trim_start(e) =~= e);
    } else {
        let ind = crate::normalize::min_indent(ls);
        // The minimum indentation stays zero: the witness line of the
        // content escapes to a line with the same bare head.
        crate::normalize::lemma_min_indent_zero_witness(clines);
        let k = choose|k: int|
            0 <= k < clines.len() && !crate::text::is_blank(#[trigger] clines[k])
                && crate::text::count_leading_ws(clines[k]) == 0;
        assert(elines[k] == escape_xml_seq(clines[k]));
        lemma_escape_blank(clines[k]);
        assert(!crate::text::is_blank(elines[k]));
        assert(clines[k].len() > 0);
        assert(!is_ws_char(clines[k][0]));
        crate::normalize::lemma_escape_head_nonws(clines[k]);
        assert(crate::text::count_leading_ws(ls[k]) == 0);
        crate::normalize::lemma_min_indent_bound(ls, k);
        assert(ind == 0);
        // Stripping zero characters and emptying already empty blank
        // lines changes nothing.
        assert(crate::normalize::dedent_lines(ls, 0) =~= ls) by {
            assert forall|j: int| 0 <= j < ls.len() implies #[trigger] crate::normalize::dedent_lines(
                ls,
                0,
            )[j] == ls[j] by {
                if crate::text::is_blank(ls[j]) {
                    lemma_escape_blank(clines[j]);
                    assert(clines[j] == Seq::<char>::empty());
                    assert(ls[j] == escape_xml_seq(clines[j]));
                    assert(ls[j] =~= Seq::<char>::empty());
                } else {
                    assert(ls[j].skip(0) =~= ls[j]);
                }
            }
        }
        crate::text::lemma_join_split(e);
        assert(crate::normalize::dedent(body) == crate::text::join_nl(
            crate::normalize::dedent_lines(ls, ind),
        ));
        assert(crate::text::join_nl(elines) == e);
    }
}

/// P8's content clause: for content in dedented normal form and free of
/// entity-like substrings — captured text whose indentation is uniform —
/// instantiating the file that parsing recaptured writes back exactly the
/// original content: dedent undoes the wrapping and unescaping undoes the
/// escaping.
pub proof fn lemma_reread_content_preserved(f: FileV)
    requires
        dedent_normal(f.content),
        !crate::text::contains_seq(f.content, crate::normalize::amp_entity()),
        !crate::text::contains_seq(f.content, crate::normalize::lt_entity()),
        !crate::text::contains_seq(f.content, crate::normalize::gt_entity()),
        !crate::text::contains_seq(f.content, crate::normalize::quot_entity()),
        !crate::text::contains_seq(f.content, crate::normalize::apos_entity()),
    ensures
        crate::instantiate::spec_rendered_content(reread_file(f)) == f.content,
{
    let c = f.content;
    assert(reread_file(f).content == seq!['\n'] + escape_xml_seq(c) + seq!['\n']);
    lemma_dedent_of_reread_body(c);
    crate::normalize::lemma_unescape_escape(c);
}

/// A non-empty run of serialized files ends with a newline.
proof fn lemma_ser_files_last(fl: Seq<FileV>, i: int)
    requires
        0 <= i < fl.len(),
    ensures
        crate::txml_elements::ser_files(fl, i).len() >= 1,
        crate::txml_elements::ser_files(fl, i).last() == '\n',
    decreases fl.len() - i,
{
    let head = crate::txml_elements::ser_file(fl[i]);
    let rest = crate::txml_elements::ser_files(fl, i + 1);
    lemma_ser_file_shape(fl[i]);
    assert(head.len() >= 1);
    assert(head.last() == '\n') by {
        let front = tag_text("File"@, file_pairs(fl[i]), false) + file_body(fl[i]) + end_tag_text(
            "File"@,
        );
        assert(head == front + seq!['\n']);
        assert(head[head.len() - 1] == seq!['\n'][0]);
    }
    if i + 1 < fl.len() {
        lemma_ser_files_last(fl, i + 1);
        assert((head + rest).last() == rest.last());
    } else {
        assert(rest.len() == 0);
        assert((head + rest).last() == head.last());
    }
}

/// A non-empty run of serialized directories ends with a newline.
proof fn lemma_ser_dirs_last(ds: Seq<DirV>, i: int)
    requires
        0 <= i < ds.len(),
    ensures
        crate::txml_elements::ser_dirs(ds, i).len() >= 1,
        crate::txml_elements::ser_dirs(ds, i).last() == '\n',
    decreases ds.len() - i,
{
    let head = crate::txml_elements::ser_dir(ds[i]);
    let rest = crate::txml_elements::ser_dirs(ds, i + 1);
    lemma_ser_dir_shape(ds[i]);
    assert(head.len() >= 1);
    assert(head.last() == '\n') by {
        let front = tag_text("Directory"@, dir_pairs(ds[i]), false) + seq!['\n']
            + crate::txml_elements::ser_files(ds[i].files, 0) + crate::txml_elements::ser_dirs(
            ds[i].dirs,
            0,
        ) + end_tag_text("Directory"@);
        assert(head == front + seq!['\n']);
        assert(head[head.len() - 1] == seq!['\n'][0]);
    }
    if i + 1 < ds.len() {
        lemma_ser_dirs_last(ds, i + 1);
        assert((head + rest).last() == rest.last());
    } else {
        assert(rest.len() == 0);
        assert((head + rest).last() == head.last());
    }
}

} // verus!
