//! Character-level text helpers: whitespace trimming and string equality,
//! each specified over the `Seq<char>` view of a `&str`.

use vstd::prelude::*;

verus! {

/// The characters with the Unicode `White_Space` property, the set that
/// `str::trim` removes from the ends of a string.
pub open spec fn is_space_char(c: char) -> bool {
    ||| c == ' '
    ||| c == '\t'
    ||| c == '\n'
    ||| c == '\r'
    ||| c == '\u{000B}'
    ||| c == '\u{000C}'
    ||| c == '\u{0085}'
    ||| c == '\u{00A0}'
    ||| c == '\u{1680}'
    ||| ('\u{2000}' <= c && c <= '\u{200A}')
    ||| c == '\u{2028}'
    ||| c == '\u{2029}'
    ||| c == '\u{202F}'
    ||| c == '\u{205F}'
    ||| c == '\u{3000}'
}

pub fn is_space(c: char) -> (r: bool)
    ensures
        r == is_space_char(c),
{
    c == ' ' || c == '\t' || c == '\n' || c == '\r' || c == '\u{000B}' || c == '\u{000C}'
        || c == '\u{0085}' || c == '\u{00A0}' || c == '\u{1680}' || ('\u{2000}' <= c && c
        <= '\u{200A}') || c == '\u{2028}' || c == '\u{2029}' || c == '\u{202F}' || c == '\u{205F}'
        || c == '\u{3000}'
}

/// The sequence with leading whitespace removed.
pub open spec fn trim_start_spec(s: Seq<char>) -> Seq<char>
    decreases s.len(),
{
    if s.len() > 0 && is_space_char(s[0]) {
        trim_start_spec(s.drop_first())
    } else {
        s
    }
}

/// The sequence with trailing whitespace removed.
pub open spec fn trim_end_spec(s: Seq<char>) -> Seq<char>
    decreases s.len(),
{
    if s.len() > 0 && is_space_char(s.last()) {
        trim_end_spec(s.drop_last())
    } else {
        s
    }
}

/// The sequence with whitespace removed from both ends, as `str::trim`
/// leaves it.
pub open spec fn trim_spec(s: Seq<char>) -> Seq<char> {
    trim_end_spec(trim_start_spec(s))
}

/// A sequence that neither starts nor ends with whitespace trims to itself.
pub proof fn lemma_trim_id(s: Seq<char>)
    requires
        s.len() == 0 || (!is_space_char(s[0]) && !is_space_char(s.last())),
    ensures
        trim_spec(s) == s,
{
}

/// Trimming the start leaves a suffix of the sequence.
pub proof fn lemma_trim_start_suffix(s: Seq<char>)
    ensures
        trim_start_spec(s).len() <= s.len(),
        trim_start_spec(s) == s.subrange(
            s.len() - trim_start_spec(s).len(),
            s.len() as int,
        ),
    decreases s.len(),
{
    if s.len() > 0 && is_space_char(s[0]) {
        lemma_trim_start_suffix(s.drop_first());
        let t = trim_start_spec(s);
        assert(s.drop_first().subrange(s.drop_first().len() - t.len(), s.drop_first().len() as int)
            =~= s.subrange(s.len() - t.len(), s.len() as int));
    } else {
        assert(s.subrange(0, s.len() as int) =~= s);
    }
}

/// Trimming the end leaves a prefix of the sequence.
pub proof fn lemma_trim_end_prefix(s: Seq<char>)
    ensures
        trim_end_spec(s).len() <= s.len(),
        trim_end_spec(s) == s.take(trim_end_spec(s).len() as int),
    decreases s.len(),
{
    if s.len() > 0 && is_space_char(s.last()) {
        lemma_trim_end_prefix(s.drop_last());
        let t = trim_end_spec(s);
        assert(s.drop_last().take(t.len() as int) =~= s.take(t.len() as int));
    } else {
        assert(s.take(s.len() as int) =~= s);
    }
}

/// A character absent from a sequence is absent from its trimmed form.
pub proof fn lemma_trim_preserves_absent(s: Seq<char>, c: char)
    requires
        forall|i: int| 0 <= i < s.len() ==> s[i] != c,
    ensures
        forall|i: int| 0 <= i < trim_spec(s).len() ==> trim_spec(s)[i] != c,
{
    lemma_trim_start_suffix(s);
    lemma_trim_end_prefix(trim_start_spec(s));
}

proof fn lemma_trim_start_first(s: Seq<char>)
    ensures
        trim_start_spec(s).len() > 0 ==> !is_space_char(trim_start_spec(s)[0]),
    decreases s.len(),
{
    if s.len() > 0 && is_space_char(s[0]) {
        lemma_trim_start_first(s.drop_first());
    }
}

proof fn lemma_trim_end_last(s: Seq<char>)
    ensures
        trim_end_spec(s).len() > 0 ==> !is_space_char(trim_end_spec(s).last()),
    decreases s.len(),
{
    if s.len() > 0 && is_space_char(s.last()) {
        lemma_trim_end_last(s.drop_last());
    }
}

proof fn lemma_trim_end_keeps_first(s: Seq<char>)
    requires
        s.len() > 0,
        !is_space_char(s[0]),
    ensures
        trim_end_spec(s).len() > 0,
        trim_end_spec(s)[0] == s[0],
    decreases s.len(),
{
    if is_space_char(s.last()) {
        assert(s.len() >= 2);
        lemma_trim_end_keeps_first(s.drop_last());
    }
}

/// A nonempty trimmed sequence neither starts nor ends with whitespace.
pub proof fn lemma_trim_ends_non_space(s: Seq<char>)
    ensures
        trim_spec(s).len() > 0 ==> !is_space_char(trim_spec(s)[0]) && !is_space_char(
            trim_spec(s).last(),
        ),
{
    lemma_trim_start_first(s);
    lemma_trim_end_last(trim_start_spec(s));
    lemma_trim_end_prefix(trim_start_spec(s));
}

/// Trimming a sequence that starts with a non-space keeps that first
/// character.
pub proof fn lemma_trim_keeps_first(s: Seq<char>)
    requires
        s.len() > 0,
        !is_space_char(s[0]),
    ensures
        trim_spec(s).len() > 0,
        trim_spec(s)[0] == s[0],
{
    lemma_trim_end_keeps_first(s);
}

/// Returns the slice of `s` with whitespace removed from both ends.
pub fn trim_of(s: &str) -> (r: &str)
    ensures
        r@ == trim_spec(s@),
{
    let n = s.unicode_len();
    proof {
        assert(s@.subrange(0, n as int) =~= s@);
    }
    let mut lo: usize = 0;
    while lo < n && is_space(s.get_char(lo))
        invariant
            0 <= lo <= n,
            n == s@.len(),
            trim_start_spec(s@) == trim_start_spec(s@.subrange(lo as int, n as int)),
        decreases n - lo,
    {
        proof {
            let t = s@.subrange(lo as int, n as int);
            assert(t.drop_first() =~= s@.subrange(lo as int + 1, n as int));
        }
        lo = lo + 1;
    }
    proof {
        let t = s@.subrange(lo as int, n as int);
        assert(trim_start_spec(t) == t);
    }
    let mut hi: usize = n;
    while hi > lo && is_space(s.get_char(hi - 1))
        invariant
            0 <= lo <= hi <= n,
            n == s@.len(),
            trim_start_spec(s@) == s@.subrange(lo as int, n as int),
            trim_end_spec(s@.subrange(lo as int, n as int)) == trim_end_spec(
                s@.subrange(lo as int, hi as int),
            ),
        decreases hi,
    {
        proof {
            let t = s@.subrange(lo as int, hi as int);
            assert(t.drop_last() =~= s@.subrange(lo as int, hi as int - 1));
        }
        hi = hi - 1;
    }
    proof {
        let t = s@.subrange(lo as int, hi as int);
        assert(trim_end_spec(t) == t);
    }
    s.substring_char(lo, hi)
}

/// Equality of two string slices, decided character by character.
pub fn str_eq(a: &str, b: &str) -> (r: bool)
    ensures
        r == (a@ == b@),
{
    let na = a.unicode_len();
    let nb = b.unicode_len();
    if na != nb {
        return false;
    }
    let mut i: usize = 0;
    while i < na
        invariant
            0 <= i <= na,
            na == a@.len(),
            na == b@.len(),
            forall|j: int| 0 <= j < i ==> a@[j] == b@[j],
        decreases na - i,
    {
        if a.get_char(i) != b.get_char(i) {
            return false;
        }
        i = i + 1;
    }
    proof {
        assert(a@ =~= b@);
    }
    true
}

/// Splits a sequence at its first `=`: the part before and the part
/// after, or `None` when no `=` occurs.
pub open spec fn split_first_eq(s: Seq<char>) -> Option<(Seq<char>, Seq<char>)>
    decreases s.len(),
{
    if s.len() == 0 {
        None
    } else if s[0] == '=' {
        Some((Seq::empty(), s.drop_first()))
    } else {
        match split_first_eq(s.drop_first()) {
            None => None,
            Some(kv) => Some((seq![s[0]] + kv.0, kv.1)),
        }
    }
}

/// Splitting finds exactly the first `=`: with no `=` in `a`, the split
/// of `a + "=" + b` is `(a, b)`.
pub proof fn lemma_split_first_eq_concat(a: Seq<char>, b: Seq<char>)
    requires
        forall|i: int| 0 <= i < a.len() ==> a[i] != '=',
    ensures
        split_first_eq(a + seq!['='] + b) == Some((a, b)),
    decreases a.len(),
{
    let s = a + seq!['='] + b;
    if a.len() == 0 {
        assert(s[0] == '=');
        assert(s.drop_first() =~= b);
        assert((a + seq!['='] + b).drop_first() =~= b);
        assert(split_first_eq(s) == Some((Seq::<char>::empty(), b)));
        assert(a =~= Seq::<char>::empty());
    } else {
        assert(s[0] == a[0]);
        assert(s.drop_first() =~= a.drop_first() + seq!['='] + b);
        lemma_split_first_eq_concat(a.drop_first(), b);
        assert(seq![s[0]] + a.drop_first() =~= a);
    }
}

/// With no `=` anywhere in `s`, the split yields nothing.
pub proof fn lemma_split_first_eq_none(s: Seq<char>)
    requires
        forall|i: int| 0 <= i < s.len() ==> s[i] != '=',
    ensures
        split_first_eq(s) is None,
    decreases s.len(),
{
    if s.len() > 0 {
        lemma_split_first_eq_none(s.drop_first());
    }
}

/// A successful split recomposes the sequence, and its first part
/// holds no `=`.
pub proof fn lemma_split_first_eq_parts(s: Seq<char>)
    requires
        split_first_eq(s) is Some,
    ensures
        s =~= split_first_eq(s).unwrap().0 + seq!['='] + split_first_eq(s).unwrap().1,
        forall|i: int|
            0 <= i < split_first_eq(s).unwrap().0.len() ==> split_first_eq(s).unwrap().0[i]
                != '=',
    decreases s.len(),
{
    if s[0] == '=' {
        assert(Seq::<char>::empty() + seq!['='] + s.drop_first() =~= s);
    } else {
        lemma_split_first_eq_parts(s.drop_first());
        let kv = split_first_eq(s.drop_first()).unwrap();
        assert(s.drop_first() =~= kv.0 + seq!['='] + kv.1);
        assert(split_first_eq(s).unwrap().0 == seq![s[0]] + kv.0);
        assert(split_first_eq(s).unwrap().1 == kv.1);
        assert(forall|i: int| 1 <= i < s.len() ==> s[i] == s.drop_first()[i - 1]);
        assert(s =~= (seq![s[0]] + kv.0) + seq!['='] + kv.1);
    }
}

/// A failed split means no `=` occurs anywhere.
pub proof fn lemma_split_first_eq_none_chars(s: Seq<char>)
    requires
        split_first_eq(s) is None,
    ensures
        forall|i: int| 0 <= i < s.len() ==> s[i] != '=',
    decreases s.len(),
{
    if s.len() > 0 {
        lemma_split_first_eq_none_chars(s.drop_first());
        assert(forall|i: int| 1 <= i < s.len() ==> s[i] == s.drop_first()[i - 1]);
    }
}

/// Splits a sequence into the segments between `\n` characters.  The
/// result always holds at least one segment; text ending in `\n` yields
/// a final empty segment.
pub open spec fn split_lines_spec(s: Seq<char>) -> Seq<Seq<char>>
    decreases s.len(),
{
    if s.len() == 0 {
        seq![Seq::empty()]
    } else if s[0] == '\n' {
        seq![Seq::<char>::empty()] + split_lines_spec(s.drop_first())
    } else {
        let rest = split_lines_spec(s.drop_first());
        seq![seq![s[0]] + rest[0]] + rest.drop_first()
    }
}

pub proof fn lemma_split_lines_len(s: Seq<char>)
    ensures
        split_lines_spec(s).len() >= 1,
    decreases s.len(),
{
    if s.len() > 0 {
        lemma_split_lines_len(s.drop_first());
    }
}

/// With no `\n` in `l`, the first line of `l + "\n" + rest` is `l` and
/// the remaining lines are those of `rest`.
pub proof fn lemma_split_lines_concat(l: Seq<char>, rest: Seq<char>)
    requires
        forall|i: int| 0 <= i < l.len() ==> l[i] != '\n',
    ensures
        split_lines_spec(l + seq!['\n'] + rest) == seq![l] + split_lines_spec(rest),
    decreases l.len(),
{
    let s = l + seq!['\n'] + rest;
    if l.len() == 0 {
        assert(s[0] == '\n');
        assert(s.drop_first() =~= rest);
        assert(l =~= Seq::<char>::empty());
        assert(seq![Seq::<char>::empty()] + split_lines_spec(rest) =~= seq![l]
            + split_lines_spec(rest));
    } else {
        assert(s[0] == l[0]);
        assert(s[0] != '\n');
        assert(s.drop_first() =~= l.drop_first() + seq!['\n'] + rest);
        lemma_split_lines_concat(l.drop_first(), rest);
        let inner = seq![l.drop_first()] + split_lines_spec(rest);
        assert(split_lines_spec(s.drop_first()) == inner);
        lemma_split_lines_len(rest);
        assert(inner[0] == l.drop_first());
        assert(seq![s[0]] + inner[0] =~= l);
        assert(inner.drop_first() =~= split_lines_spec(rest));
        assert(seq![seq![s[0]] + inner[0]] + inner.drop_first() =~= seq![l]
            + split_lines_spec(rest));
    }
}

/// No segment that line-splitting yields contains a `\n`.
pub proof fn lemma_split_lines_no_newline(s: Seq<char>, k: int)
    requires
        0 <= k < split_lines_spec(s).len(),
    ensures
        forall|i: int|
            0 <= i < split_lines_spec(s)[k].len() ==> split_lines_spec(s)[k][i] != '\n',
    decreases s.len(),
{
    if s.len() == 0 {
    } else if s[0] == '\n' {
        if k > 0 {
            lemma_split_lines_no_newline(s.drop_first(), k - 1);
        }
    } else {
        let rest = split_lines_spec(s.drop_first());
        lemma_split_lines_len(s.drop_first());
        if k == 0 {
            lemma_split_lines_no_newline(s.drop_first(), 0);
            assert(split_lines_spec(s)[0] == seq![s[0]] + rest[0]);
            assert(forall|i: int| 1 <= i < (seq![s[0]] + rest[0]).len() ==> (seq![s[0]]
                + rest[0])[i] == rest[0][i - 1]);
        } else {
            lemma_split_lines_no_newline(s.drop_first(), k);
            assert(split_lines_spec(s)[k] == rest.drop_first()[k - 1]);
            assert(rest.drop_first()[k - 1] == rest[k]);
        }
    }
}

/// With no `\n` at all, the whole sequence is the one line.
pub proof fn lemma_split_lines_single(s: Seq<char>)
    requires
        forall|i: int| 0 <= i < s.len() ==> s[i] != '\n',
    ensures
        split_lines_spec(s) == seq![s],
    decreases s.len(),
{
    if s.len() == 0 {
        assert(s =~= Seq::<char>::empty());
        assert(seq![Seq::<char>::empty()] =~= seq![s]);
    } else {
        lemma_split_lines_single(s.drop_first());
        let rest = split_lines_spec(s.drop_first());
        assert(rest == seq![s.drop_first()]);
        assert(seq![s[0]] + rest[0] =~= s);
        assert(rest.drop_first() =~= Seq::<Seq<char>>::empty());
        assert(seq![seq![s[0]] + rest[0]] + rest.drop_first() =~= seq![s]);
    }
}

/// Splits a string into its lines, the segments between `\n` characters.
pub fn split_lines(s: &str) -> (r: Vec<String>)
    ensures
        r@.len() == split_lines_spec(s@).len(),
        forall|i: int| 0 <= i < r@.len() ==> r@[i]@ == split_lines_spec(s@)[i],
{
    let n = s.unicode_len();
    let mut r: Vec<String> = Vec::new();
    let mut pos: usize = 0;
    let mut i: usize = 0;
    proof {
        assert(s@.subrange(0, n as int) =~= s@);
    }
    while i < n
        invariant
            0 <= pos <= i <= n,
            n == s@.len(),
            forall|j: int| pos <= j < i ==> s@[j] != '\n',
            split_lines_spec(s@) == r@.map_values(|l: String| l@) + split_lines_spec(
                s@.subrange(pos as int, n as int),
            ),
        decreases n - i,
    {
        if s.get_char(i) == '\n' {
            let line = s.substring_char(pos, i);
            let ghost prev = r@;
            let owned = String::from_str(line);
            r.push(owned);
            proof {
                let tail = s@.subrange(pos as int, n as int);
                let l = s@.subrange(pos as int, i as int);
                let rest = s@.subrange(i as int + 1, n as int);
                assert(tail =~= l + seq!['\n'] + rest);
                lemma_split_lines_concat(l, rest);
                assert(r@.map_values(|x: String| x@) =~= prev.map_values(|x: String| x@)
                    + seq![l]);
            }
            pos = i + 1;
        }
        i = i + 1;
    }
    let line = s.substring_char(pos, n);
    let ghost prev = r@;
    let owned = String::from_str(line);
    r.push(owned);
    proof {
        let tail = s@.subrange(pos as int, n as int);
        lemma_split_lines_single(tail);
        assert(r@.map_values(|x: String| x@) =~= prev.map_values(|x: String| x@) + seq![tail]);
    }
    r
}

} // verus!
