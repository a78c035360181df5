//! Turning raw file text into key-value entries, one line at a time.
//!
//! A line is trimmed; empty lines and full-line `#` comments yield no
//! entry; otherwise the line splits at its first `=` into a key and a
//! value, each trimmed, and a line without `=` is a key with an empty
//! value.

use vstd::prelude::*;

use crate::text::is_space_char;
use crate::text::lemma_split_first_eq_none;
use crate::text::lemma_split_first_eq_concat;
use crate::text::split_first_eq;
use crate::text::split_lines_spec;
use crate::text::trim_of;
use crate::text::trim_spec;

verus! {

/// The entry a single line contributes: `None` for blank lines and
/// comments, otherwise the trimmed key and value.
pub open spec fn line_entry_spec(line: Seq<char>) -> Option<(Seq<char>, Seq<char>)> {
    let t = trim_spec(line);
    if t.len() == 0 || t[0] == '#' {
        None
    } else {
        match split_first_eq(t) {
            Some(kv) => Some((trim_spec(kv.0), trim_spec(kv.1))),
            None => Some((t, Seq::empty())),
        }
    }
}

/// The mapping `m` after one line is read into it.
pub open spec fn apply_line(
    m: Map<Seq<char>, Seq<char>>,
    line: Seq<char>,
) -> Map<Seq<char>, Seq<char>> {
    match line_entry_spec(line) {
        None => m,
        Some(kv) => m.insert(kv.0, kv.1),
    }
}

/// The mapping `m` after a sequence of lines is read into it in order;
/// a later line overwrites an earlier one with the same key.
pub open spec fn parse_lines_from(
    m: Map<Seq<char>, Seq<char>>,
    lines: Seq<Seq<char>>,
) -> Map<Seq<char>, Seq<char>>
    decreases lines.len(),
{
    if lines.len() == 0 {
        m
    } else {
        parse_lines_from(apply_line(m, lines[0]), lines.drop_first())
    }
}

/// The mapping that a whole file text denotes.
pub open spec fn parse_spec(s: Seq<char>) -> Map<Seq<char>, Seq<char>> {
    parse_lines_from(Map::empty(), split_lines_spec(s))
}

/// Reads one line into its entry.
pub fn line_entry(line: &str) -> (r: Option<(String, String)>)
    ensures
        match r {
            None => line_entry_spec(line@) is None,
            Some(kv) => line_entry_spec(line@) == Some((kv.0@, kv.1@)),
        },
{
    let t = trim_of(line);
    let n = t.unicode_len();
    if n == 0 {
        return None;
    }
    if t.get_char(0) == '#' {
        return None;
    }
    let mut i: usize = 0;
    while i < n && t.get_char(i) != '='
        invariant
            0 <= i <= n,
            n == t@.len(),
            forall|j: int| 0 <= j < i ==> t@[j] != '=',
        decreases n - i,
    {
        i = i + 1;
    }
    if i < n {
        proof {
            assert(t@ =~= t@.subrange(0, i as int) + seq!['='] + t@.subrange(
                i as int + 1,
                n as int,
            ));
            lemma_split_first_eq_concat(
                t@.subrange(0, i as int),
                t@.subrange(i as int + 1, n as int),
            );
        }
        let kpart = t.substring_char(0, i);
        let vpart = t.substring_char(i + 1, n);
        let k = trim_of(kpart);
        let v = trim_of(vpart);
        Some((String::from_str(k), String::from_str(v)))
    } else {
        proof {
            lemma_split_first_eq_none(t@);
        }
        Some((String::from_str(t), String::new()))
    }
}

/// A key as `render` writes it and `parse` reads it back unchanged: no
/// `=` or newline, no surrounding whitespace, and not opening a comment.
pub open spec fn plain_key(k: Seq<char>) -> bool {
    &&& forall|i: int| 0 <= i < k.len() ==> k[i] != '=' && k[i] != '\n'
    &&& k.len() > 0 ==> !is_space_char(k[0]) && !is_space_char(k.last()) && k[0] != '#'
}

/// A value as `render` writes it and `parse` reads it back unchanged:
/// no newline and no surrounding whitespace.  A value may contain `=`,
/// since only the first `=` of a line separates.
pub open spec fn plain_value(v: Seq<char>) -> bool {
    &&& forall|i: int| 0 <= i < v.len() ==> v[i] != '\n'
    &&& v.len() > 0 ==> !is_space_char(v[0]) && !is_space_char(v.last())
}

/// Every entry read from a line without newlines is itself plain, so
/// everything a parse produces renders back losslessly.
pub proof fn lemma_line_entry_plain(line: Seq<char>)
    requires
        forall|i: int| 0 <= i < line.len() ==> line[i] != '\n',
    ensures
        match line_entry_spec(line) {
            None => true,
            Some(kv) => plain_key(kv.0) && plain_value(kv.1),
        },
{
    let t = trim_spec(line);
    crate::text::lemma_trim_preserves_absent(line, '\n');
    crate::text::lemma_trim_ends_non_space(line);
    if t.len() == 0 || t[0] == '#' {
    } else {
        match split_first_eq(t) {
            Some(kv) => {
                crate::text::lemma_split_first_eq_parts(t);
                let a = kv.0;
                let b = kv.1;
                assert(forall|i: int| 0 <= i < a.len() ==> a[i] == t[i]);
                assert(forall|i: int| 0 <= i < b.len() ==> b[i] == t[a.len() + 1 + i]);
                assert(forall|i: int| 0 <= i < a.len() ==> a[i] != '\n' && a[i] != '=');
                assert(forall|i: int| 0 <= i < b.len() ==> b[i] != '\n');
                crate::text::lemma_trim_preserves_absent(a, '\n');
                crate::text::lemma_trim_preserves_absent(a, '=');
                crate::text::lemma_trim_preserves_absent(b, '\n');
                crate::text::lemma_trim_ends_non_space(a);
                crate::text::lemma_trim_ends_non_space(b);
                if a.len() > 0 {
                    assert(a[0] == t[0]);
                    crate::text::lemma_trim_keeps_first(a);
                    assert(trim_spec(a)[0] != '#');
                }
            },
            None => {
                crate::text::lemma_split_first_eq_none_chars(t);
            },
        }
    }
}

/// The line `KEY=VALUE` of a plain key and value reads back as exactly
/// that entry.
pub proof fn lemma_line_entry_of_plain(k: Seq<char>, v: Seq<char>)
    requires
        plain_key(k),
        plain_value(v),
    ensures
        line_entry_spec(k + seq!['='] + v) == Some((k, v)),
{
    let body = k + seq!['='] + v;
    assert(body.len() > 0);
    assert(body[0] == if k.len() > 0 {
        k[0]
    } else {
        '='
    });
    assert(body.last() == if v.len() > 0 {
        v.last()
    } else {
        '='
    });
    assert(!is_space_char('='));
    assert(!is_space_char(body[0]));
    assert(!is_space_char(body.last()));
    crate::text::lemma_trim_id(body);
    assert(body[0] != '#');
    lemma_split_first_eq_concat(k, v);
    crate::text::lemma_trim_id(k);
    crate::text::lemma_trim_id(v);
}

/// A blank line leaves the mapping as it was.
pub proof fn lemma_apply_empty_line(m: Map<Seq<char>, Seq<char>>)
    ensures
        apply_line(m, Seq::empty()) == m,
{
}

/// A line that is empty after trimming, or whose first character is
/// `#`, contributes no entry to the mapping.
pub proof fn lemma_blank_or_comment_line(m: Map<Seq<char>, Seq<char>>, line: Seq<char>)
    requires
        trim_spec(line).len() == 0 || trim_spec(line)[0] == '#',
    ensures
        apply_line(m, line) == m,
{
}

/// A line without any `=` yields its whole trimmed text as a key with
/// an empty value.
pub proof fn lemma_line_without_equals(line: Seq<char>)
    requires
        trim_spec(line).len() > 0,
        trim_spec(line)[0] != '#',
        forall|i: int| 0 <= i < trim_spec(line).len() ==> trim_spec(line)[i] != '=',
    ensures
        line_entry_spec(line) == Some((trim_spec(line), Seq::<char>::empty())),
{
    lemma_split_first_eq_none(trim_spec(line));
}

} // verus!
