//! Content normalization for file bodies: block dedent, entity unescaping
//! (applied when a file is instantiated) and entity escaping (applied when a
//! tree is rendered back into markup).

use vstd::prelude::*;
use vstd::string::StrSliceExecFns;

use crate::text::blank_str;
use crate::text::count_leading_ws;
use crate::text::find_char_from;
use crate::text::is_blank;
use crate::text::is_ws_char;
use crate::text::leading_ws;
use crate::text::lemma_find_char_from_props;
use crate::text::lines_of;
use crate::text::push_str;
use crate::text::replace_all;
use crate::text::replace_all_str;
use crate::text::split_char_seq;
use crate::text::split_char_str;
use crate::text::substr;
use crate::text::to_owned_str;
use crate::text::trim_start;
use crate::text::trim_start_str;

verus! {

// ---------------------------------------------------------------------------
// Entities
// ---------------------------------------------------------------------------
pub open spec fn amp_entity() -> Seq<char> {
    seq!['&', 'a', 'm', 'p', ';']
}

pub open spec fn lt_entity() -> Seq<char> {
    seq!['&', 'l', 't', ';']
}

pub open spec fn gt_entity() -> Seq<char> {
    seq!['&', 'g', 't', ';']
}

pub open spec fn quot_entity() -> Seq<char> {
    seq!['&', 'q', 'u', 'o', 't', ';']
}

pub open spec fn apos_entity() -> Seq<char> {
    seq!['&', 'a', 'p', 'o', 's', ';']
}

/// The expansion of one character under XML escaping: the five special
/// characters become their entity forms, every other character stays.
pub open spec fn escape_char_seq(c: char) -> Seq<char> {
    if c == '&' {
        amp_entity()
    } else if c == '<' {
        lt_entity()
    } else if c == '>' {
        gt_entity()
    } else if c == '"' {
        quot_entity()
    } else if c == '\'' {
        apos_entity()
    } else {
        seq![c]
    }
}

/// XML escaping of a whole text: every character expanded in place.
/// Replacing `&` first and the four other characters afterwards, as the
/// serializer's entity pass does, produces exactly this expansion, since no
/// replacement inserts a character that a later pass rewrites.
pub open spec fn escape_xml_seq(s: Seq<char>) -> Seq<char>
    decreases s.len(),
{
    if s.len() == 0 {
        seq![]
    } else {
        escape_char_seq(s[0]) + escape_xml_seq(s.skip(1))
    }
}

/// XML unescaping: the five entity forms replaced by their literal
/// characters, in the fixed order `&amp;`, `&lt;`, `&gt;`, `&quot;`,
/// `&apos;`, each pass scanning left to right.
pub open spec fn unescape_xml_seq(s: Seq<char>) -> Seq<char> {
    replace_all(
        replace_all(
            replace_all(
                replace_all(replace_all(s, amp_entity(), seq!['&']), lt_entity(), seq!['<']),
                gt_entity(),
                seq!['>'],
            ),
            quot_entity(),
            seq!['"'],
        ),
        apos_entity(),
        seq!['\''],
    )
}

// ---------------------------------------------------------------------------
// The escape/unescape inverse law
// ---------------------------------------------------------------------------
// The proof tracks the unescape passes through a family of partial
// expansions: `esc_at(s, j)` expands only the special characters from
// index `j` on of the fixed order `& < > " '`.  Level 0 is full escaping;
// level 5 is the identity; pass `j` of unescaping takes level `j` to
// level `j + 1`.
/// The position of `c` in the replacement order, or 5 for a plain
/// character.
pub open spec fn special_index(c: char) -> int {
    if c == '&' {
        0
    } else if c == '<' {
        1
    } else if c == '>' {
        2
    } else if c == '"' {
        3
    } else if c == '\'' {
        4
    } else {
        5
    }
}

/// The entity form of the `j`-th special character.
pub open spec fn entity_of(j: int) -> Seq<char> {
    if j == 0 {
        amp_entity()
    } else if j == 1 {
        lt_entity()
    } else if j == 2 {
        gt_entity()
    } else if j == 3 {
        quot_entity()
    } else {
        apos_entity()
    }
}

/// The `j`-th special character itself.
pub open spec fn char_of(j: int) -> char {
    if j == 0 {
        '&'
    } else if j == 1 {
        '<'
    } else if j == 2 {
        '>'
    } else if j == 3 {
        '"'
    } else {
        '\''
    }
}

/// One character under partial expansion: expanded when its index is at
/// least `j`.
pub open spec fn esc_level_char(c: char, j: int) -> Seq<char> {
    if special_index(c) < 5 && special_index(c) >= j {
        entity_of(special_index(c))
    } else {
        seq![c]
    }
}

/// Partial expansion of a whole text at level `j`.
pub open spec fn esc_at(s: Seq<char>, j: int) -> Seq<char>
    decreases s.len(),
{
    if s.len() == 0 {
        seq![]
    } else {
        esc_level_char(s[0], j) + esc_at(s.skip(1), j)
    }
}

/// Level 0 is exactly XML escaping.
proof fn lemma_esc_at_escape(s: Seq<char>)
    ensures
        esc_at(s, 0) == escape_xml_seq(s),
    decreases s.len(),
{
    if s.len() > 0 {
        lemma_esc_at_escape(s.skip(1));
        assert(esc_level_char(s[0], 0) == escape_char_seq(s[0]));
    }
}

/// Level 5 is the identity.
proof fn lemma_esc_at_id(s: Seq<char>)
    ensures
        esc_at(s, 5) == s,
    decreases s.len(),
{
    if s.len() > 0 {
        lemma_esc_at_id(s.skip(1));
        assert(seq![s[0]] + s.skip(1) =~= s);
    }
}

/// A replacement scan whose head does not match steps over one character.
proof fn lemma_ra_step(x: Seq<char>, pat: Seq<char>, rep: Seq<char>)
    requires
        pat.len() > 0,
        x.len() > 0,
        !crate::text::starts_with_at(x, pat, 0),
    ensures
        replace_all(x, pat, rep) == seq![x[0]] + replace_all(x.skip(1), pat, rep),
{
    if x.len() < pat.len() {
        assert(replace_all(x, pat, rep) == x);
        assert(replace_all(x.skip(1), pat, rep) == x.skip(1));
        assert(seq![x[0]] + x.skip(1) =~= x);
    } else if x.take(pat.len() as int) == pat {
        assert(x.subrange(0, pat.len() as int) =~= x.take(pat.len() as int));
        assert(false);
    }
}

/// A replacement scan passes over a prefix free of the pattern's first
/// character.
proof fn lemma_ra_skip_prefix(w: Seq<char>, t: Seq<char>, pat: Seq<char>, rep: Seq<char>)
    requires
        pat.len() > 0,
        forall|i: int| 0 <= i < w.len() ==> #[trigger] w[i] != pat[0],
    ensures
        replace_all(w + t, pat, rep) == w + replace_all(t, pat, rep),
    decreases w.len(),
{
    if w.len() == 0 {
        assert(w + t =~= t);
        assert(w + replace_all(t, pat, rep) =~= replace_all(t, pat, rep));
    } else {
        let x = w + t;
        assert(!crate::text::starts_with_at(x, pat, 0)) by {
            if crate::text::starts_with_at(x, pat, 0) {
                assert(x.subrange(0, pat.len() as int)[0] == x[0]);
                assert(x[0] == w[0]);
            }
        }
        lemma_ra_step(x, pat, rep);
        assert(x.skip(1) =~= w.skip(1) + t);
        lemma_ra_skip_prefix(w.skip(1), t, pat, rep);
        assert(seq![w[0]] + (w.skip(1) + replace_all(t, pat, rep)) =~= w + replace_all(
            t,
            pat,
            rep,
        ));
    }
}

/// A partial expansion that begins with plain characters reflects them
/// from the source text.
proof fn lemma_esc_at_plain_prefix(t: Seq<char>, j: int, w: Seq<char>)
    requires
        forall|i: int| 0 <= i < w.len() ==> special_index(#[trigger] w[i]) == 5,
        esc_at(t, j).len() >= w.len(),
        esc_at(t, j).take(w.len() as int) == w,
    ensures
        t.len() >= w.len(),
        t.take(w.len() as int) == w,
    decreases w.len(),
{
    if w.len() > 0 {
        assert(t.len() > 0);
        let block = esc_level_char(t[0], j);
        assert(esc_at(t, j)[0] == w[0]) by {
            assert(esc_at(t, j).take(w.len() as int)[0] == esc_at(t, j)[0]);
        }
        assert(block[0] == esc_at(t, j)[0]);
        // An expanded block starts with '&', which is not plain, so the
        // head block is the single source character.
        assert(block == seq![t[0]]) by {
            if special_index(t[0]) < 5 && special_index(t[0]) >= j {
                assert(block[0] == '&');
                assert(special_index(w[0]) == 5);
            }
        }
        assert(t[0] == w[0]);
        assert(esc_at(t, j).skip(1) =~= esc_at(t.skip(1), j));
        assert(esc_at(t.skip(1), j).take(w.len() - 1) =~= w.skip(1)) by {
            assert(forall|i: int|
                0 <= i < w.len() - 1 ==> #[trigger] esc_at(t.skip(1), j).take(w.len() - 1)[i]
                    == esc_at(t, j).take(w.len() as int)[i + 1]);
        }
        lemma_esc_at_plain_prefix(t.skip(1), j, w.skip(1));
        assert(t.take(w.len() as int) =~= seq![t[0]] + t.skip(1).take(w.len() - 1));
        assert(seq![w[0]] + w.skip(1) =~= w);
    } else {
        assert(t.take(0) =~= w);
    }
}

/// Entity tails hold only plain characters, and distinct entities differ
/// within their first three characters.
proof fn lemma_entity_facts(j: int, m: int)
    requires
        0 <= j <= 4,
        0 <= m <= 4,
        j != m,
    ensures
        forall|i: int|
            1 <= i < entity_of(j).len() ==> special_index(#[trigger] entity_of(j)[i]) == 5,
        entity_of(j)[1] != entity_of(m)[1] || entity_of(j)[2] != entity_of(m)[2],
        entity_of(j).len() >= 4,
        entity_of(j)[0] == '&',
{
}

/// One unescape pass: replacing the `j`-th entity in the level-`j`
/// expansion of a text free of that entity yields the level-`j + 1`
/// expansion.
proof fn lemma_unescape_pass(s: Seq<char>, j: int)
    requires
        0 <= j <= 4,
        !crate::text::contains_seq(s, entity_of(j)),
    ensures
        replace_all(esc_at(s, j), entity_of(j), seq![char_of(j)]) == esc_at(s, j + 1),
    decreases s.len(),
{
    let e = entity_of(j);
    assert(forall|i: int| 1 <= i < e.len() ==> special_index(#[trigger] e[i]) == 5) by {
        lemma_entity_facts(j, if j == 0 {
            1
        } else {
            0
        });
    }
    if s.len() == 0 {
    } else {
        let h = s[0];
        let m = special_index(h);
        let tail = s.skip(1);
        let x = esc_at(s, j);
        let block = esc_level_char(h, j);
        assert(x == block + esc_at(tail, j));
        assert(!crate::text::contains_seq(tail, e)) by {
            if crate::text::contains_seq(tail, e) {
                let i = choose|i: int| crate::text::starts_with_at(tail, e, i);
                assert(s.subrange(1 + i, 1 + i + e.len()) =~= tail.subrange(i, i + e.len()));
                assert(crate::text::starts_with_at(s, e, 1 + i));
            }
        }
        lemma_unescape_pass(tail, j);
        if m == j {
            // The head block is exactly the entity being replaced.
            assert(block == e);
            assert(x.len() >= e.len());
            assert(x.take(e.len() as int) =~= e);
            assert(x.skip(e.len() as int) =~= esc_at(tail, j));
            assert(replace_all(x, e, seq![char_of(j)]) == seq![char_of(j)] + replace_all(
                esc_at(tail, j),
                e,
                seq![char_of(j)],
            ));
            assert(esc_level_char(h, j + 1) == seq![h]);
            assert(h == char_of(j));
        } else if m < 5 && m > j {
            // The head block is a longer-indexed entity: the pattern does
            // not match it, and its tail holds no ampersand.
            lemma_entity_facts(j, m);
            lemma_entity_facts(m, j);
            assert(block == entity_of(m));
            assert(!crate::text::starts_with_at(x, e, 0)) by {
                if crate::text::starts_with_at(x, e, 0) {
                    assert(x.subrange(0, e.len() as int)[1] == x[1]);
                    assert(x.subrange(0, e.len() as int)[2] == x[2]);
                    assert(x[1] == block[1] && x[2] == block[2]);
                }
            }
            lemma_ra_step(x, e, seq![char_of(j)]);
            assert(x.skip(1) =~= block.skip(1) + esc_at(tail, j));
            lemma_ra_skip_prefix(block.skip(1), esc_at(tail, j), e, seq![char_of(j)]);
            assert(esc_level_char(h, j + 1) == block);
            assert(seq![x[0]] + (block.skip(1) + replace_all(esc_at(tail, j), e, seq![char_of(j)]))
                =~= block + esc_at(tail, j + 1));
        } else {
            // The head block is a single character: either plain, or a
            // special kept literal at this level.
            assert(block == seq![h]);
            assert(!crate::text::starts_with_at(x, e, 0)) by {
                if crate::text::starts_with_at(x, e, 0) {
                    assert(x.subrange(0, e.len() as int)[0] == x[0]);
                    assert(x[0] == h);
                    assert(h == '&');
                    // The rest of the entity would have to be reflected
                    // literally in the source, putting the whole entity in
                    // the source text.
                    assert(esc_at(tail, j) =~= x.skip(1));
                    assert(esc_at(tail, j).take(e.len() - 1) =~= e.skip(1)) by {
                        assert(forall|i: int|
                            0 <= i < e.len() - 1 ==> #[trigger] esc_at(tail, j).take(
                                e.len() - 1,
                            )[i] == x.subrange(0, e.len() as int)[i + 1]);
                    }
                    assert(forall|i: int|
                        0 <= i < e.skip(1).len() ==> special_index(#[trigger] e.skip(1)[i]) == 5);
                    lemma_esc_at_plain_prefix(tail, j, e.skip(1));
                    assert(s.subrange(0, e.len() as int) =~= seq!['&'] + tail.take(e.len() - 1));
                    assert(s.subrange(0, e.len() as int) =~= e);
                    assert(crate::text::starts_with_at(s, e, 0));
                }
            }
            lemma_ra_step(x, e, seq![char_of(j)]);
            assert(x.skip(1) =~= esc_at(tail, j));
            assert(esc_level_char(h, j + 1) == seq![h]);
            assert(seq![x[0]] + replace_all(esc_at(tail, j), e, seq![char_of(j)]) =~= seq![h]
                + esc_at(tail, j + 1));
        }
    }
}

/// Escape/unescape inverse law: on text holding none of the five entity
/// forms as a substring — text with no literal ambiguity — unescaping an
/// escaped text gives it back exactly.
pub proof fn lemma_unescape_escape(s: Seq<char>)
    requires
        !crate::text::contains_seq(s, amp_entity()),
        !crate::text::contains_seq(s, lt_entity()),
        !crate::text::contains_seq(s, gt_entity()),
        !crate::text::contains_seq(s, quot_entity()),
        !crate::text::contains_seq(s, apos_entity()),
    ensures
        unescape_xml_seq(escape_xml_seq(s)) == s,
{
    lemma_esc_at_escape(s);
    lemma_unescape_pass(s, 0);
    lemma_unescape_pass(s, 1);
    lemma_unescape_pass(s, 2);
    lemma_unescape_pass(s, 3);
    lemma_unescape_pass(s, 4);
    lemma_esc_at_id(s);
    assert(seq![char_of(0)] =~= seq!['&']);
    assert(seq![char_of(1)] =~= seq!['<']);
    assert(seq![char_of(2)] =~= seq!['>']);
    assert(seq![char_of(3)] =~= seq!['"']);
    assert(seq![char_of(4)] =~= seq!['\'']);
}

/// Escaping distributes over concatenation.
pub proof fn lemma_escape_concat(a: Seq<char>, b: Seq<char>)
    ensures
        escape_xml_seq(a + b) == escape_xml_seq(a) + escape_xml_seq(b),
    decreases a.len(),
{
    if a.len() == 0 {
        assert(a + b =~= b);
        assert(escape_xml_seq(a) + escape_xml_seq(b) =~= escape_xml_seq(b));
    } else {
        assert((a + b)[0] == a[0]);
        assert((a + b).skip(1) =~= a.skip(1) + b);
        lemma_escape_concat(a.skip(1), b);
        assert(escape_xml_seq(a + b) =~= escape_xml_seq(a) + escape_xml_seq(b));
    }
}

/// A character that no entity holds and that the text does not hold is
/// absent from the escaped text.
pub proof fn lemma_escape_no_char(c: Seq<char>, ch: char)
    requires
        ch != '&' && ch != 'a' && ch != 'm' && ch != 'p' && ch != 'l' && ch != 't' && ch != 'g'
            && ch != 'q' && ch != 'u' && ch != 'o' && ch != 's' && ch != ';',
        forall|i: int| 0 <= i < c.len() ==> #[trigger] c[i] != ch,
    ensures
        forall|i: int| 0 <= i < escape_xml_seq(c).len() ==> #[trigger] escape_xml_seq(c)[i] != ch,
    decreases c.len(),
{
    if c.len() > 0 {
        assert(forall|i: int|
            0 <= i < c.skip(1).len() ==> #[trigger] c.skip(1)[i] != ch) by {
            assert(forall|i: int| 0 <= i < c.skip(1).len() ==> #[trigger] c.skip(1)[i] == c[1 + i]);
        }
        lemma_escape_no_char(c.skip(1), ch);
        let b = escape_char_seq(c[0]);
        let rest = escape_xml_seq(c.skip(1));
        assert(escape_xml_seq(c) == b + rest);
        assert(forall|j: int| 0 <= j < b.len() ==> #[trigger] b[j] != ch);
        assert forall|i: int| 0 <= i < escape_xml_seq(c).len() implies #[trigger] escape_xml_seq(
            c,
        )[i] != ch by {
            if i < b.len() {
                assert(escape_xml_seq(c)[i] == b[i]);
            } else {
                assert(escape_xml_seq(c)[i] == rest[i - b.len()]);
            }
        }
    }
}

/// Escaping maps over the lines: no entity holds a newline, and a newline
/// is not special, so line structure is kept.
pub proof fn lemma_escape_split(c: Seq<char>)
    ensures
        split_char_seq(escape_xml_seq(c), '\n') == split_char_seq(c, '\n').map_values(
            |l: Seq<char>| escape_xml_seq(l),
        ),
    decreases c.len(),
{
    let e = escape_xml_seq(c);
    let j = find_char_from(c, '\n', 0);
    lemma_find_char_from_props(c, '\n', 0);
    if 0 <= j < c.len() {
        let head = c.take(j);
        let tail = c.skip(j + 1);
        assert(c =~= head + seq!['\n'] + tail);
        lemma_escape_concat(head + seq!['\n'], tail);
        lemma_escape_concat(head, seq!['\n']);
        assert(escape_xml_seq(seq!['\n']) =~= seq!['\n']) by {
            assert(escape_char_seq('\n') == seq!['\n']);
            assert(seq!['\n'].skip(1) =~= Seq::<char>::empty());
            assert(escape_xml_seq(Seq::<char>::empty()) =~= Seq::<char>::empty());
            assert(escape_xml_seq(seq!['\n']) == escape_char_seq('\n') + escape_xml_seq(
                seq!['\n'].skip(1),
            ));
        }
        let eh = escape_xml_seq(head);
        let et = escape_xml_seq(tail);
        assert(escape_xml_seq(c) =~= eh + seq!['\n'] + et);
        assert(forall|i: int| 0 <= i < head.len() ==> #[trigger] head[i] != '\n') by {
            assert(forall|i: int| 0 <= i < head.len() ==> #[trigger] head[i] == c[i]);
        }
        lemma_escape_no_char(head, '\n');
        // The first newline of the escaped text closes the escaped head.
        assert(find_char_from(e, '\n', 0) == eh.len() as int) by {
            assert(forall|k: int| 0 <= k < eh.len() ==> #[trigger] e[k] != '\n') by {
                assert(forall|k: int| 0 <= k < eh.len() ==> #[trigger] e[k] == eh[k]);
            }
            crate::text::lemma_find_char_range(e, '\n', 0, eh.len() as int);
            assert(e[eh.len() as int] == '\n') by {
                assert(e[eh.len() as int] == (eh + seq!['\n'] + et)[eh.len() as int]);
            }
        }
        assert(e.take(eh.len() as int) =~= eh);
        assert(e.skip(eh.len() as int + 1) =~= et);
        lemma_escape_split(tail);
        assert(split_char_seq(e, '\n') =~= split_char_seq(c, '\n').map_values(
            |l: Seq<char>| escape_xml_seq(l),
        )) by {
            assert(split_char_seq(e, '\n') == seq![eh] + split_char_seq(et, '\n'));
            assert(split_char_seq(c, '\n') == seq![head] + split_char_seq(tail, '\n'));
        }
    } else {
        // No newline in the text, hence none in its escaped form.
        lemma_escape_no_char(c, '\n');
        assert(find_char_from(e, '\n', 0) == e.len() as int) by {
            crate::text::lemma_find_char_range(e, '\n', 0, e.len() as int);
        }
        assert(split_char_seq(e, '\n') == seq![e]);
        assert(split_char_seq(c, '\n') == seq![c]);
        assert(split_char_seq(e, '\n') =~= split_char_seq(c, '\n').map_values(
            |l: Seq<char>| escape_xml_seq(l),
        ));
    }
}

/// Escaping a text whose head is not whitespace yields a text whose head
/// is not whitespace: entities start with an ampersand.
pub proof fn lemma_escape_head_nonws(l: Seq<char>)
    requires
        l.len() > 0,
        !is_ws_char(l[0]),
    ensures
        escape_xml_seq(l).len() > 0,
        count_leading_ws(escape_xml_seq(l)) == 0,
{
    let b = escape_char_seq(l[0]);
    let e = escape_xml_seq(l);
    assert(e == b + escape_xml_seq(l.skip(1)));
    assert(b.len() >= 1);
    assert(e[0] == b[0]);
    if special_index(l[0]) < 5 {
        assert(b[0] == '&');
        assert(!is_ws_char('&'));
    } else {
        assert(b == seq![l[0]]);
    }
    assert(!is_ws_char(e[0]));
}

/// A zero minimum indentation is witnessed by a non-blank line with no
/// leading whitespace.
pub proof fn lemma_min_indent_zero_witness(ls: Seq<Seq<char>>)
    requires
        min_indent(ls) == 0,
    ensures
        exists|k: int|
            0 <= k < ls.len() && !is_blank(#[trigger] ls[k]) && count_leading_ws(ls[k]) == 0,
    decreases ls.len(),
{
    assert(ls.len() > 0);
    let rest = min_indent(ls.skip(1));
    if is_blank(ls[0]) || !(count_leading_ws(ls[0]) < rest) {
        if rest == 0 {
            lemma_min_indent_zero_witness(ls.skip(1));
            let k = choose|k: int|
                0 <= k < ls.skip(1).len() && !is_blank(#[trigger] ls.skip(1)[k])
                    && count_leading_ws(ls.skip(1)[k]) == 0;
            assert(ls.skip(1)[k] == ls[1 + k]);
            assert(!is_blank(ls[1 + k]) && count_leading_ws(ls[1 + k]) == 0);
        } else {
            assert(!is_blank(ls[0]) && count_leading_ws(ls[0]) == 0);
        }
    } else {
        assert(!is_blank(ls[0]) && count_leading_ws(ls[0]) == 0);
    }
}

// ---------------------------------------------------------------------------
// Dedent
// ---------------------------------------------------------------------------
/// The minimum leading-whitespace count across the non-blank lines; blank
/// lines do not participate.  When every line is blank the minimum is
/// `usize::MAX`, so that nothing constrains it.
pub open spec fn min_indent(ls: Seq<Seq<char>>) -> nat
    decreases ls.len(),
{
    if ls.len() == 0 {
        usize::MAX as nat
    } else {
        let rest = min_indent(ls.skip(1));
        if is_blank(ls[0]) {
            rest
        } else if count_leading_ws(ls[0]) < rest {
            count_leading_ws(ls[0])
        } else {
            rest
        }
    }
}

/// Each non-blank line with exactly `ind` characters stripped from its
/// start; blank lines become empty.
pub open spec fn dedent_lines(ls: Seq<Seq<char>>, ind: nat) -> Seq<Seq<char>> {
    ls.map_values(
        |l: Seq<char>|
            if is_blank(l) {
                Seq::<char>::empty()
            } else {
                l.skip(ind as int)
            },
    )
}

/// Block dedent of a captured file body.  A blank body yields the empty
/// text.  Otherwise the first line (the newline right after the opening tag)
/// is dropped; a single remaining line is returned with its leading
/// whitespace trimmed; with more (or fewer) remaining lines, the minimum
/// leading-whitespace count over the non-blank lines is stripped from each
/// non-blank line, blank lines become bare newlines, and the lines are
/// joined with single newlines.
pub open spec fn dedent(s: Seq<char>) -> Seq<char> {
    if is_blank(s) {
        seq![]
    } else {
        let ls = lines_of(s).skip(1);
        if ls.len() == 1 {
            trim_start(ls[0])
        } else {
            crate::text::join_nl(dedent_lines(ls, min_indent(ls)))
        }
    }
}

pub proof fn lemma_min_indent_bound(ls: Seq<Seq<char>>, k: int)
    requires
        0 <= k < ls.len(),
        !is_blank(ls[k]),
    ensures
        min_indent(ls) <= count_leading_ws(ls[k]),
    decreases k,
{
    if k == 0 {
    } else {
        lemma_min_indent_bound(ls.skip(1), k - 1);
    }
}

pub proof fn lemma_join_nl_snoc(p: Seq<Seq<char>>, x: Seq<char>)
    ensures
        p.len() == 0 ==> crate::text::join_nl(p.push(x)) == x,
        p.len() >= 1 ==> crate::text::join_nl(p.push(x)) == crate::text::join_nl(p)
            + seq!['\n'] + x,
    decreases p.len(),
{
    if p.len() == 0 {
        assert(p.push(x)[0] == x);
        assert(crate::text::join_nl(p.push(x)) == x);
    } else if p.len() == 1 {
        assert(p.push(x).skip(1) =~= seq![x]);
        assert(p.push(x)[0] == p[0]);
        assert(crate::text::join_nl(seq![x]) == x);
        assert(crate::text::join_nl(p.push(x)) == p[0] + seq!['\n'] + x);
    } else {
        lemma_join_nl_snoc(p.skip(1), x);
        assert(p.push(x).skip(1) =~= p.skip(1).push(x));
    }
}

} // verus!

verus! {

/// Lines of `s`, as `str::lines` yields them: one trailing carriage
/// return is stripped from each line.
pub fn lines_str(s: &str) -> (r: Vec<String>)
    ensures
        r.deep_view() == lines_of(s@),
        s@.len() > 0 ==> r@.len() >= 1,
{
    let n = s.unicode_len();
    let mut parts = split_char_str(s, '\n');
    proof {
        lemma_split_char_len(s@, '\n');
    }
    if n > 0 && s.get_char(n - 1) == '\n' {
        assert(crate::text::contains_char(s@, '\n'));
        assert(parts@.len() >= 2);
        parts.pop();
        proof {
            assert(parts.deep_view() =~= split_char_seq(s@, '\n').drop_last());
        }
    }
    proof {
        assert(parts.deep_view() =~= crate::text::raw_lines_of(s@));
    }
    let ghost base = parts.deep_view();
    let mut out: Vec<String> = Vec::new();
    let mut i: usize = 0;
    while i < parts.len()
        invariant
            0 <= i <= parts@.len(),
            parts.deep_view() == base,
            out.deep_view().len() == i,
            forall|j: int|
                0 <= j < i ==> #[trigger] out.deep_view()[j] == crate::text::strip_cr(base[j]),
        decreases parts@.len() - i,
    {
        let ghost out0 = out.deep_view();
        let line: &String = &parts[i];
        let llen = line.as_str().unicode_len();
        if llen > 0 && crate::text::char_at(line.as_str(), llen - 1) == '\r' {
            let stripped = to_owned_str(substr(line.as_str(), 0, llen - 1));
            proof {
                assert(stripped@ =~= crate::text::strip_cr(base[i as int])) by {
                    assert(line@.subrange(0, llen - 1) =~= line@.drop_last());
                }
            }
            out.push(stripped);
        } else {
            let kept = to_owned_str(line.as_str());
            proof {
                assert(kept@ == crate::text::strip_cr(base[i as int]));
            }
            out.push(kept);
        }
        proof {
            assert(out.deep_view() =~= out0.push(crate::text::strip_cr(base[i as int])));
        }
        i = i + 1;
    }
    proof {
        assert(out.deep_view() =~= lines_of(s@));
    }
    out
}

proof fn lemma_split_char_len(s: Seq<char>, sep: char)
    ensures
        split_char_seq(s, sep).len() >= 1,
        crate::text::contains_char(s, sep) ==> split_char_seq(s, sep).len() >= 2,
    decreases s.len(),
{
    let j = find_char_from(s, sep, 0);
    lemma_find_char_from_props(s, sep, 0);
    if 0 <= j < s.len() {
        lemma_split_char_len(s.skip(j + 1), sep);
    } else {
        assert(!crate::text::contains_char(s, sep));
    }
}

pub proof fn lemma_min_indent_le_max(ls: Seq<Seq<char>>)
    ensures
        min_indent(ls) <= usize::MAX as nat,
    decreases ls.len(),
{
    if ls.len() > 0 {
        lemma_min_indent_le_max(ls.skip(1));
    }
}

/// Block dedent of a captured file body; see `dedent` for the exact rule.
#[verifier::rlimit(50)]
pub fn remove_indentation(text: &str) -> (r: String)
    ensures
        r@ == dedent(text@),
{
    proof {
        reveal_strlit("\n");
        assert("\n"@ =~= seq!['\n']);
    }
    if blank_str(text) {
        return String::new();
    }
    let n = text.unicode_len();
    let all = lines_str(text);
    let ghost ls = lines_of(text@).skip(1);
    proof {
        assert(all.deep_view().skip(1) =~= ls);
    }
    if all.len() == 2 {
        let line: &String = &all[1];
        assert(line@ == ls[0]);
        let r = to_owned_str(trim_start_str(line.as_str()));
        return r;
    }
    // Minimum leading-whitespace count over the non-blank remaining lines.
    let mut ind: usize = usize::MAX;
    proof {
        lemma_min_indent_le_max(ls);
        assert(all.deep_view().len() == all@.len());
        assert(ls.skip(0) =~= ls);
    }
    let mut i: usize = 1;
    while i < all.len()
        invariant
            1 <= i <= all@.len(),
            all.deep_view().skip(1) =~= ls,
            ls.len() == all@.len() - 1,
            min_indent(ls) == spec_min(ind as nat, min_indent(ls.skip(i - 1))),
        decreases all@.len() - i,
    {
        let ghost rest = ls.skip(i - 1);
        proof {
            assert(rest[0] == ls[i - 1]);
            assert(rest.skip(1) =~= ls.skip(i as int));
        }
        let line: &String = &all[i];
        assert(line@ == ls[i - 1]);
        if !blank_str(line.as_str()) {
            let c = leading_ws(line.as_str());
            if c < ind {
                ind = c;
            }
        }
        i = i + 1;
    }
    proof {
        assert(ls.skip(ls.len() as int) =~= Seq::<Seq<char>>::empty());
        assert(min_indent(ls) == spec_min(ind as nat, usize::MAX as nat));
    }
    // Strip it from every non-blank line; blank lines become bare newlines.
    let ghost target = dedent_lines(ls, min_indent(ls));
    let mut out = String::new();
    proof {
        assert(target.take(0) =~= Seq::<Seq<char>>::empty());
        assert(crate::text::join_nl(target.take(0)) =~= Seq::<char>::empty());
    }
    let mut i: usize = 1;
    while i < all.len()
        invariant
            1 <= i <= all@.len(),
            all.deep_view().skip(1) =~= ls,
            ls.len() == all@.len() - 1,
            ind as nat == min_indent(ls),
            target == dedent_lines(ls, min_indent(ls)),
            out@ == crate::text::join_nl(target.take(i - 1)),
        decreases all@.len() - i,
    {
        let line: &String = &all[i];
        assert(line@ == ls[i - 1]);
        if i > 1 {
            push_str(&mut out, "\n");
        }
        if !blank_str(line.as_str()) {
            proof {
                lemma_min_indent_bound(ls, i - 1);
                crate::text::lemma_count_leading_ws_le(line@);
            }
            let line_len = line.as_str().unicode_len();
            let stripped = substr(line.as_str(), ind, line_len);
            push_str(&mut out, stripped);
        }
        proof {
            let prev = target.take(i - 1);
            assert(prev.push(target[i - 1]) =~= target.take(i as int));
            lemma_join_nl_snoc(prev, target[i - 1]);
            if is_blank(ls[i - 1]) {
                assert(target[i - 1] =~= Seq::<char>::empty());
            } else {
                assert(target[i - 1] =~= line@.skip(ind as int));
            }
            assert(out@ =~= crate::text::join_nl(target.take(i as int)));
        }
        i = i + 1;
    }
    proof {
        assert(target.take(target.len() as int) =~= target);
    }
    out
}

/// Replace the five XML entity forms by their literal characters, in the
/// fixed order with `&amp;` first.
pub fn unescape_xml(text: &str) -> (r: String)
    ensures
        r@ == unescape_xml_seq(text@),
{
    proof {
        reveal_strlit("&amp;");
        reveal_strlit("&lt;");
        reveal_strlit("&gt;");
        reveal_strlit("&quot;");
        reveal_strlit("&apos;");
        reveal_strlit("&");
        reveal_strlit("<");
        reveal_strlit(">");
        reveal_strlit("\"");
        reveal_strlit("'");
        assert("&amp;"@ =~= amp_entity());
        assert("&lt;"@ =~= lt_entity());
        assert("&gt;"@ =~= gt_entity());
        assert("&quot;"@ =~= quot_entity());
        assert("&apos;"@ =~= apos_entity());
        assert("&"@ =~= seq!['&']);
        assert("<"@ =~= seq!['<']);
        assert(">"@ =~= seq!['>']);
        assert("\""@ =~= seq!['"']);
        assert("'"@ =~= seq!['\'']);
    }
    let s1 = replace_all_str(text, "&amp;", "&");
    let s2 = replace_all_str(s1.as_str(), "&lt;", "<");
    let s3 = replace_all_str(s2.as_str(), "&gt;", ">");
    let s4 = replace_all_str(s3.as_str(), "&quot;", "\"");
    let s5 = replace_all_str(s4.as_str(), "&apos;", "'");
    s5
}

/// Replace the five special characters by their entity forms, ampersand
/// first so that entities it introduces are not escaped again.
pub fn escape_xml(text: &str) -> (r: String)
    ensures
        r@ == escape_xml_seq(text@),
{
    proof {
        reveal_strlit("&amp;");
        reveal_strlit("&lt;");
        reveal_strlit("&gt;");
        reveal_strlit("&quot;");
        reveal_strlit("&apos;");
        assert("&amp;"@ =~= amp_entity());
        assert("&lt;"@ =~= lt_entity());
        assert("&gt;"@ =~= gt_entity());
        assert("&quot;"@ =~= quot_entity());
        assert("&apos;"@ =~= apos_entity());
    }
    let n = text.unicode_len();
    let mut out = String::new();
    proof {
        assert(text@.skip(0) =~= text@);
        assert(out@ + escape_xml_seq(text@) =~= escape_xml_seq(text@));
    }
    let mut i: usize = 0;
    while i < n
        invariant
            0 <= i <= n,
            escape_xml_seq(text@) == out@ + escape_xml_seq(text@.skip(i as int)),
        decreases n - i,
    {
        let ghost suffix = text@.skip(i as int);
        proof {
            assert(suffix[0] == text@[i as int]);
            assert(suffix.skip(1) =~= text@.skip(i + 1));
        }
        let c = text.get_char(i);
        if c == '&' {
            push_str(&mut out, "&amp;");
        } else if c == '<' {
            push_str(&mut out, "&lt;");
        } else if c == '>' {
            push_str(&mut out, "&gt;");
        } else if c == '"' {
            push_str(&mut out, "&quot;");
        } else if c == '\'' {
            push_str(&mut out, "&apos;");
        } else {
            let piece = substr(text, i, i + 1);
            proof {
                assert(piece@ =~= seq![text@[i as int]]);
            }
            push_str(&mut out, piece);
        }
        i = i + 1;
    }
    proof {
        assert(text@.skip(n as int) =~= Seq::<char>::empty());
        assert(out@ + Seq::<char>::empty() =~= out@);
    }
    out
}

/// The smaller of two naturals.
pub open spec fn spec_min(a: nat, b: nat) -> nat {
    if a < b {
        a
    } else {
        b
    }
}

} // verus!
