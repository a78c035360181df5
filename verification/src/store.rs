//! The configuration store: an in-memory mapping from key to value with
//! distinct keys, read from file text and rendered back to it.

use vstd::prelude::*;

use crate::parse::apply_line;
use crate::parse::lemma_line_entry_of_plain;
use crate::parse::line_entry;
use crate::parse::parse_lines_from;
use crate::parse::parse_spec;
use crate::parse::plain_key;
use crate::parse::plain_value;
use crate::text::split_lines;
use crate::text::split_lines_spec;
use crate::text::str_eq;
use crate::values::classify_bool;
use crate::values::is_false_value;
use crate::values::is_i32_string;
use crate::values::is_true_value;
use crate::values::int_value;
use crate::values::parse_i32;

verus! {

/// One key-value pair of the store.
pub struct Entry {
    pub key: String,
    pub value: String,
}

/// The mapping a sequence of entries denotes; with duplicate keys the
/// later entry wins.
pub open spec fn map_of(s: Seq<Entry>) -> Map<Seq<char>, Seq<char>>
    decreases s.len(),
{
    if s.len() == 0 {
        Map::empty()
    } else {
        map_of(s.drop_last()).insert(s.last().key@, s.last().value@)
    }
}

/// No two entries share a key.
pub open spec fn distinct_keys(s: Seq<Entry>) -> bool {
    forall|i: int, j: int| 0 <= i < j < s.len() ==> s[i].key@ != s[j].key@
}

/// Some entry carries the key `k`.
pub open spec fn has_key(s: Seq<Entry>, k: Seq<char>) -> bool {
    exists|i: int| 0 <= i < s.len() && (#[trigger] s[i].key)@ == k
}

/// The mapping holds exactly the keys of the entries.
pub proof fn lemma_map_of_contains(s: Seq<Entry>, k: Seq<char>)
    ensures
        map_of(s).contains_key(k) <==> has_key(s, k),
    decreases s.len(),
{
    if s.len() > 0 {
        let butlast = s.drop_last();
        lemma_map_of_contains(butlast, k);
        if s.last().key@ == k {
            assert((s[s.len() - 1].key)@ == k);
            assert(has_key(s, k));
        } else if has_key(butlast, k) {
            let i = choose|i: int| 0 <= i < butlast.len() && (#[trigger] butlast[i].key)@ == k;
            assert((s[i].key)@ == k);
            assert(has_key(s, k));
        }
        if has_key(s, k) && s.last().key@ != k {
            let i = choose|i: int| 0 <= i < s.len() && (#[trigger] s[i].key)@ == k;
            assert(i < s.len() - 1);
            assert((butlast[i].key)@ == k);
            assert(has_key(butlast, k));
        }
    }
}

/// With distinct keys, the mapping sends each entry's key to its value.
pub proof fn lemma_map_of_index(s: Seq<Entry>, i: int)
    requires
        distinct_keys(s),
        0 <= i < s.len(),
    ensures
        map_of(s).contains_key(s[i].key@),
        map_of(s)[s[i].key@] == s[i].value@,
    decreases s.len(),
{
    let butlast = s.drop_last();
    if i == s.len() - 1 {
    } else {
        assert(s[i].key@ != s.last().key@);
        assert(butlast[i] == s[i]);
        lemma_map_of_index(butlast, i);
    }
}

/// Removing the entry at `i` removes exactly its key from the mapping.
pub proof fn lemma_map_of_remove(s: Seq<Entry>, i: int)
    requires
        distinct_keys(s),
        0 <= i < s.len(),
    ensures
        map_of(s.remove(i)) =~= map_of(s).remove(s[i].key@),
    decreases s.len(),
{
    let butlast = s.drop_last();
    let k = s[i].key@;
    if i == s.len() - 1 {
        assert(s.remove(i) =~= butlast);
        lemma_map_of_contains(butlast, k);
        assert(!has_key(butlast, k)) by {
            if has_key(butlast, k) {
                let j = choose|j: int|
                    0 <= j < butlast.len() && (#[trigger] butlast[j].key)@ == k;
                assert(s[j].key@ == s[i].key@);
                assert(false);
            }
        };
        assert(map_of(s).remove(k) =~= map_of(butlast));
    } else {
        let t = s.remove(i);
        assert(t.drop_last() =~= butlast.remove(i));
        assert(t.last() == s.last());
        lemma_map_of_remove(butlast, i);
        assert(map_of(t) == map_of(butlast.remove(i)).insert(s.last().key@, s.last().value@));
        assert(butlast[i] == s[i]);
        assert(s.last().key@ != k);
        assert(map_of(butlast).remove(k).insert(s.last().key@, s.last().value@) =~= map_of(
            butlast,
        ).insert(s.last().key@, s.last().value@).remove(k));
    }
}

/// The in-memory key-value store.  Its `view` is the mapping from key
/// to value; well-formedness says the entries carry distinct keys.
pub struct Envie {
    pub variables: Vec<Entry>,
}

impl View for Envie {
    type V = Map<Seq<char>, Seq<char>>;

    open spec fn view(&self) -> Map<Seq<char>, Seq<char>> {
        map_of(self.variables@)
    }
}

impl Envie {
    /// Entries carry pairwise distinct keys, so the entry list and the
    /// mapping it denotes determine each other.
    pub open spec fn wf(self) -> bool {
        distinct_keys(self.variables@)
    }

    /// The store with no entries.
    pub fn empty() -> (r: Envie)
        ensures
            r.wf(),
            r@ == Map::<Seq<char>, Seq<char>>::empty(),
    {
        Envie { variables: Vec::new() }
    }

    /// The index of the entry carrying `key`, if any.
    fn find(&self, key: &str) -> (r: Option<usize>)
        ensures
            match r {
                Some(i) => 0 <= i < self.variables@.len() && self.variables@[i as int].key@
                    == key@,
                None => !has_key(self.variables@, key@),
            },
    {
        let n = self.variables.len();
        let mut i: usize = 0;
        while i < n
            invariant
                0 <= i <= n,
                n == self.variables@.len(),
                forall|j: int| 0 <= j < i ==> (#[trigger] self.variables@[j].key)@ != key@,
            decreases n - i,
        {
            if str_eq(self.variables[i].key.as_str(), key) {
                return Some(i);
            }
            i = i + 1;
        }
        None
    }

    /// Inserts or overwrites one entry of the in-memory mapping.
    fn upsert(&mut self, key: String, value: String)
        requires
            old(self).wf(),
        ensures
            final(self).wf(),
            final(self)@ == old(self)@.insert(key@, value@),
            plain_entries(old(self).variables@) && plain_key(key@) && plain_value(value@)
                ==> plain_entries(final(self).variables@),
    {
        let ghost olds = self.variables@;
        match self.find(key.as_str()) {
            Some(i) => {
                self.variables.remove(i);
                proof {
                    lemma_map_of_remove(olds, i as int);
                    if plain_entries(olds) {
                        lemma_plain_entries_remove(olds, i as int);
                    }
                }
            },
            None => {
                proof {
                    lemma_map_of_contains(olds, key@);
                }
            },
        }
        let ghost mids = self.variables@;
        self.variables.push(Entry { key, value });
        proof {
            assert(self.variables@.drop_last() =~= mids);
            assert(map_of(self.variables@) == map_of(mids).insert(
                self.variables@.last().key@,
                self.variables@.last().value@,
            ));
            assert(map_of(self.variables@) =~= map_of(olds).insert(
                self.variables@.last().key@,
                self.variables@.last().value@,
            ));
            if plain_entries(mids) && plain_key(key@) && plain_value(value@) {
                assert(plain_entries(self.variables@)) by {
                    assert(forall|j: int|
                        0 <= j < mids.len() ==> self.variables@[j] == mids[j]);
                    assert(self.variables@.last().key@ == key@);
                };
            }
            assert(distinct_keys(self.variables@)) by {
                assert(forall|j: int|
                    0 <= j < mids.len() ==> (#[trigger] mids[j].key)@
                        != self.variables@.last().key@) by {
                    lemma_map_of_contains(mids, self.variables@.last().key@);
                    assert(!map_of(mids).contains_key(self.variables@.last().key@));
                    assert(forall|j: int|
                        0 <= j < mids.len() && (#[trigger] mids[j].key)@
                            == self.variables@.last().key@ ==> has_key(
                            mids,
                            self.variables@.last().key@,
                        ));
                };
            };
        }
    }

    /// Inserts or overwrites the key in the in-memory mapping.  The
    /// caller is left to rewrite the backing file from `render`.
    pub fn set(&mut self, key: &str, value: &str)
        requires
            old(self).wf(),
        ensures
            final(self).wf(),
            final(self)@ == old(self)@.insert(key@, value@),
            plain_entries(old(self).variables@) && plain_key(key@) && plain_value(value@)
                ==> plain_entries(final(self).variables@),
    {
        self.upsert(String::from_str(key), String::from_str(value));
    }

    /// Deletes the key from the in-memory mapping; a no-op when it is
    /// absent.  The caller is left to rewrite the backing file.
    pub fn remove(&mut self, key: &str)
        requires
            old(self).wf(),
        ensures
            final(self).wf(),
            final(self)@ == old(self)@.remove(key@),
    {
        let ghost olds = self.variables@;
        match self.find(key) {
            Some(i) => {
                self.variables.remove(i);
                proof {
                    lemma_map_of_remove(olds, i as int);
                    assert(self@ =~= old(self)@.remove(key@));
                }
            },
            None => {
                proof {
                    lemma_map_of_contains(olds, key@);
                    assert(self@ =~= old(self)@.remove(key@));
                }
            },
        }
    }

    /// The value for `key`: the in-memory value when the key is present,
    /// otherwise the caller-supplied process-environment value.
    pub fn get(&self, key: &str, env_value: Option<String>) -> (r: Option<String>)
        requires
            self.wf(),
        ensures
            self@.contains_key(key@) ==> r is Some && r.unwrap()@ == self@[key@],
            !self@.contains_key(key@) ==> r == env_value,
    {
        proof {
            lemma_map_of_contains(self.variables@, key@);
        }
        match self.find(key) {
            Some(i) => {
                proof {
                    lemma_map_of_index(self.variables@, i as int);
                }
                Some(self.variables[i].value.clone())
            },
            None => env_value,
        }
    }

    /// Whether the key is present in the in-memory mapping or resolvable
    /// from the caller-supplied process-environment value.
    pub fn contains_key(&self, key: &str, env_value: Option<String>) -> (r: bool)
        requires
            self.wf(),
        ensures
            r == (self@.contains_key(key@) || env_value is Some),
    {
        proof {
            lemma_map_of_contains(self.variables@, key@);
        }
        match self.find(key) {
            Some(_) => true,
            None => env_value.is_some(),
        }
    }

    /// A copy of the full in-memory mapping, as plain key-value pairs;
    /// process-environment values are never included.
    pub fn get_all(&self) -> (r: Vec<(String, String)>)
        ensures
            r@.len() == self.variables@.len(),
            forall|i: int|
                0 <= i < r@.len() ==> (#[trigger] r@[i]).0@ == self.variables@[i].key@
                    && r@[i].1@ == self.variables@[i].value@,
    {
        let n = self.variables.len();
        let mut r: Vec<(String, String)> = Vec::new();
        let mut i: usize = 0;
        while i < n
            invariant
                0 <= i <= n,
                n == self.variables@.len(),
                r@.len() == i,
                forall|j: int|
                    0 <= j < i ==> (#[trigger] r@[j]).0@ == self.variables@[j].key@ && r@[j].1@
                        == self.variables@[j].value@,
            decreases n - i,
        {
            let k = self.variables[i].key.clone();
            let v = self.variables[i].value.clone();
            r.push((k, v));
            i = i + 1;
        }
        r
    }

    /// The value a read of `key` resolves to: the in-memory value when
    /// the key is present, otherwise the caller-supplied
    /// process-environment value, otherwise nothing.
    pub open spec fn resolved(self, key: Seq<char>, env_value: Option<String>) -> Option<
        Seq<char>,
    > {
        if self@.contains_key(key) {
            Some(self@[key])
        } else {
            match env_value {
                Some(v) => Some(v@),
                None => None,
            }
        }
    }

    /// Reads the key as a boolean.  `true`/`1` are true and `false`/`0`
    /// are false, case-insensitively; a key found nowhere or any other
    /// value is an error naming the key.
    pub fn get_bool(&self, key: &str, env_value: Option<String>) -> (r: Result<bool, String>)
        requires
            self.wf(),
        ensures
            ({
                match self.resolved(key@, env_value) {
                    None => r matches Err(m) && m@ == key_not_found_msg(key@),
                    Some(v) => {
                        if is_true_value(v) {
                            r == Ok::<bool, String>(true)
                        } else if is_false_value(v) {
                            r == Ok::<bool, String>(false)
                        } else {
                            r matches Err(m) && m@ == invalid_bool_msg(key@)
                        }
                    },
                }
            }),
    {
        match self.get(key, env_value) {
            None => Err(key_not_found_message(key)),
            Some(v) => match classify_bool(v.as_str()) {
                Some(b) => Ok(b),
                None => Err(invalid_bool_message(key)),
            },
        }
    }

    /// Reads the key as a base-10 signed 32-bit integer.  A key found
    /// nowhere, a malformed literal or one out of range is an error
    /// naming the key.
    pub fn get_int(&self, key: &str, env_value: Option<String>) -> (r: Result<i32, String>)
        requires
            self.wf(),
        ensures
            ({
                match self.resolved(key@, env_value) {
                    None => r matches Err(m) && m@ == key_not_found_msg(key@),
                    Some(v) => {
                        if is_i32_string(v) {
                            r matches Ok(x) && x as int == int_value(v)
                        } else {
                            r matches Err(m) && m@ == invalid_int_msg(key@)
                        }
                    },
                }
            }),
    {
        match self.get(key, env_value) {
            None => Err(key_not_found_message(key)),
            Some(v) => match parse_i32(v.as_str()) {
                Some(x) => Ok(x),
                None => Err(invalid_int_message(key)),
            },
        }
    }

    /// Renders the in-memory mapping as file text: one `KEY=VALUE` line
    /// per entry, in entry order, each ended by a newline.
    pub fn render(&self) -> (r: String)
        ensures
            r@ == render_spec(self.variables@),
    {
        let mut r = String::new();
        let n = self.variables.len();
        let mut i: usize = 0;
        proof {
            assert(self.variables@.take(0) =~= Seq::<Entry>::empty());
        }
        while i < n
            invariant
                0 <= i <= n,
                n == self.variables@.len(),
                r@ == render_spec(self.variables@.take(i as int)),
            decreases n - i,
        {
            r.append(self.variables[i].key.as_str());
            r.append("=");
            r.append(self.variables[i].value.as_str());
            r.append("\n");
            proof {
                reveal_strlit("=");
                reveal_strlit("\n");
                assert("="@ =~= seq!['=']);
                assert("\n"@ =~= seq!['\n']);
                let pre = self.variables@.take(i as int);
                let q = self.variables@.take(i as int + 1);
                assert(q.drop_last() =~= pre);
                assert(q.last() == self.variables@[i as int]);
                assert(r@ =~= render_spec(pre) + entry_line(self.variables@[i as int]) + seq![
                    '\n',
                ]);
            }
            i = i + 1;
        }
        proof {
            assert(self.variables@.take(n as int) =~= self.variables@);
        }
        r
    }

    /// Parses file text into a fresh store: lines are read in order and
    /// a later line overwrites an earlier one with the same key.
    pub fn parse(content: &str) -> (r: Envie)
        ensures
            r.wf(),
            r@ == parse_spec(content@),
            plain_entries(r.variables@),
    {
        let lines = split_lines(content);
        let ghost all = split_lines_spec(content@);
        let mut e = Envie { variables: Vec::new() };
        proof {
            assert(all.skip(0) =~= all);
            assert(e@ =~= Map::<Seq<char>, Seq<char>>::empty());
        }
        let n = lines.len();
        let mut i: usize = 0;
        while i < n
            invariant
                0 <= i <= n,
                e.wf(),
                n == lines@.len(),
                n == all.len(),
                all == split_lines_spec(content@),
                forall|j: int| 0 <= j < n ==> (#[trigger] lines@[j])@ == all[j],
                parse_spec(content@) == parse_lines_from(e@, all.skip(i as int)),
                plain_entries(e.variables@),
            decreases n - i,
        {
            let ghost before = e@;
            proof {
                crate::text::lemma_split_lines_no_newline(content@, i as int);
                crate::parse::lemma_line_entry_plain(all[i as int]);
            }
            match line_entry(lines[i].as_str()) {
                None => {},
                Some(kv) => {
                    e.upsert(kv.0, kv.1);
                },
            }
            proof {
                let rest = all.skip(i as int);
                assert(rest[0] == all[i as int]);
                assert(rest.drop_first() =~= all.skip(i as int + 1));
                assert(e@ == apply_line(before, all[i as int]));
            }
            i = i + 1;
        }
        proof {
            assert(all.skip(n as int) =~= Seq::<Seq<char>>::empty());
        }
        e
    }
}

/// The message reported when a typed read finds its key nowhere.
pub open spec fn key_not_found_msg(key: Seq<char>) -> Seq<char> {
    "Key '"@ + key + "' not found"@
}

/// The message reported when a value does not read as a boolean.
pub open spec fn invalid_bool_msg(key: Seq<char>) -> Seq<char> {
    "Invalid boolean value for key '"@ + key + "'"@
}

/// The message reported when a value does not read as an integer.
pub open spec fn invalid_int_msg(key: Seq<char>) -> Seq<char> {
    "Invalid integer value for key '"@ + key + "'"@
}

fn key_not_found_message(key: &str) -> (r: String)
    ensures
        r@ == key_not_found_msg(key@),
{
    let mut r = String::from_str("Key '");
    r.append(key);
    r.append("' not found");
    r
}

fn invalid_bool_message(key: &str) -> (r: String)
    ensures
        r@ == invalid_bool_msg(key@),
{
    let mut r = String::from_str("Invalid boolean value for key '");
    r.append(key);
    r.append("'");
    r
}

fn invalid_int_message(key: &str) -> (r: String)
    ensures
        r@ == invalid_int_msg(key@),
{
    let mut r = String::from_str("Invalid integer value for key '");
    r.append(key);
    r.append("'");
    r
}

/// The line that one entry renders to, without its newline.
pub open spec fn entry_line(e: Entry) -> Seq<char> {
    e.key@ + seq!['='] + e.value@
}

/// The file text a sequence of entries renders to: one `KEY=VALUE` line
/// per entry, each ended by a newline.
pub open spec fn render_spec(s: Seq<Entry>) -> Seq<char>
    decreases s.len(),
{
    if s.len() == 0 {
        Seq::empty()
    } else {
        render_spec(s.drop_last()) + entry_line(s.last()) + seq!['\n']
    }
}

/// Every entry of the store is plain, so rendering loses nothing.
pub open spec fn plain_entries(s: Seq<Entry>) -> bool {
    forall|i: int|
        0 <= i < s.len() ==> plain_key((#[trigger] s[i]).key@) && plain_value(s[i].value@)
}

proof fn lemma_plain_entries_remove(s: Seq<Entry>, i: int)
    requires
        plain_entries(s),
        0 <= i < s.len(),
    ensures
        plain_entries(s.remove(i)),
{
    let t = s.remove(i);
    assert forall|j: int| 0 <= j < t.len() implies plain_key((#[trigger] t[j]).key@)
        && plain_value(t[j].value@) by {
        if j < i {
            assert(t[j] == s[j]);
        } else {
            assert(t[j] == s[j + 1]);
        }
    }
}

/// Rendering can also be unfolded from the front.
proof fn lemma_render_unfold_left(s: Seq<Entry>)
    requires
        s.len() > 0,
    ensures
        render_spec(s) == entry_line(s[0]) + seq!['\n'] + render_spec(s.drop_first()),
    decreases s.len(),
{
    if s.len() == 1 {
        assert(s.drop_last() =~= Seq::<Entry>::empty());
        assert(s.drop_first() =~= Seq::<Entry>::empty());
        assert(s.last() == s[0]);
        assert(render_spec(s.drop_last()) + entry_line(s.last()) + seq!['\n'] =~= entry_line(
            s[0],
        ) + seq!['\n'] + render_spec(s.drop_first()));
    } else {
        let butlast = s.drop_last();
        lemma_render_unfold_left(butlast);
        assert(butlast[0] == s[0]);
        assert(butlast.drop_first() =~= s.drop_first().drop_last());
        assert(s.drop_first().last() == s.last());
        assert(render_spec(s) == render_spec(butlast) + entry_line(s.last()) + seq!['\n']);
        assert(render_spec(s.drop_first()) == render_spec(s.drop_first().drop_last())
            + entry_line(s.last()) + seq!['\n']);
        assert((entry_line(s[0]) + seq!['\n'] + render_spec(butlast.drop_first())) + entry_line(
            s.last(),
        ) + seq!['\n'] =~= entry_line(s[0]) + seq!['\n'] + (render_spec(s.drop_first().drop_last())
            + entry_line(s.last()) + seq!['\n']));
    }
}

/// The mapping `m` after every entry of `s` is inserted in order.
pub open spec fn insert_all(m: Map<Seq<char>, Seq<char>>, s: Seq<Entry>) -> Map<
    Seq<char>,
    Seq<char>,
>
    decreases s.len(),
{
    if s.len() == 0 {
        m
    } else {
        insert_all(m.insert(s[0].key@, s[0].value@), s.drop_first())
    }
}

proof fn lemma_insert_all_push(m: Map<Seq<char>, Seq<char>>, s: Seq<Entry>, e: Entry)
    ensures
        insert_all(m, s.push(e)) == insert_all(m, s).insert(e.key@, e.value@),
    decreases s.len(),
{
    let t = s.push(e);
    assert(t.len() == s.len() + 1);
    if s.len() == 0 {
        assert(t[0] == e);
        assert(t.drop_first() =~= Seq::<Entry>::empty());
        assert(insert_all(m, t) == insert_all(m.insert(e.key@, e.value@), t.drop_first()));
        assert(insert_all(m.insert(e.key@, e.value@), t.drop_first()) == m.insert(
            e.key@,
            e.value@,
        ));
        assert(insert_all(m, s) == m);
    } else {
        assert(t[0] == s[0]);
        assert(t.drop_first() =~= s.drop_first().push(e));
        assert(insert_all(m, t) == insert_all(m.insert(t[0].key@, t[0].value@), t.drop_first()));
        lemma_insert_all_push(m.insert(s[0].key@, s[0].value@), s.drop_first(), e);
        assert(insert_all(m, s) == insert_all(m.insert(s[0].key@, s[0].value@), s.drop_first()));
    }
}

/// Inserting the entries in order into the empty mapping yields the
/// mapping of the entries.
proof fn lemma_insert_all_map_of(s: Seq<Entry>)
    ensures
        insert_all(Map::empty(), s) == map_of(s),
    decreases s.len(),
{
    if s.len() > 0 {
        lemma_insert_all_map_of(s.drop_last());
        assert(s.drop_last().push(s.last()) =~= s);
        lemma_insert_all_push(Map::empty(), s.drop_last(), s.last());
    }
}

/// Parsing the rendered lines inserts exactly the rendered entries.
proof fn lemma_parse_render_lines(m: Map<Seq<char>, Seq<char>>, s: Seq<Entry>)
    requires
        plain_entries(s),
    ensures
        parse_lines_from(m, split_lines_spec(render_spec(s))) == insert_all(m, s),
    decreases s.len(),
{
    if s.len() == 0 {
        crate::text::lemma_split_lines_single(Seq::<char>::empty());
        let lines = split_lines_spec(render_spec(s));
        assert(render_spec(s) == Seq::<char>::empty());
        assert(lines == seq![Seq::<char>::empty()]);
        assert(lines[0] == Seq::<char>::empty());
        crate::parse::lemma_apply_empty_line(m);
        assert(lines.drop_first() =~= Seq::<Seq<char>>::empty());
        assert(lines.len() == 1);
        assert(parse_lines_from(m, lines) == parse_lines_from(
            apply_line(m, lines[0]),
            lines.drop_first(),
        ));
        assert(parse_lines_from(m, lines.drop_first()) == m);
        assert(insert_all(m, s) == m);
    } else {
        lemma_render_unfold_left(s);
        let line0 = entry_line(s[0]);
        let rest = render_spec(s.drop_first());
        assert(forall|i: int| 0 <= i < line0.len() ==> line0[i] != '\n') by {
            assert(plain_key(s[0].key@) && plain_value(s[0].value@));
        };
        crate::text::lemma_split_lines_concat(line0, rest);
        let lines = split_lines_spec(render_spec(s));
        assert(lines == seq![line0] + split_lines_spec(rest));
        assert(lines[0] == line0);
        assert(lines.drop_first() =~= split_lines_spec(rest));
        lemma_line_entry_of_plain(s[0].key@, s[0].value@);
        assert(apply_line(m, line0) == m.insert(s[0].key@, s[0].value@));
        lemma_parse_render_lines(m.insert(s[0].key@, s[0].value@), s.drop_first());
        crate::text::lemma_split_lines_len(rest);
        assert(lines.len() > 0);
        assert(parse_lines_from(m, lines) == parse_lines_from(
            apply_line(m, lines[0]),
            lines.drop_first(),
        ));
        assert(parse_lines_from(apply_line(m, line0), split_lines_spec(rest)) == insert_all(
            m.insert(s[0].key@, s[0].value@),
            s.drop_first(),
        ));
        assert(insert_all(m, s) == insert_all(m.insert(s[0].key@, s[0].value@), s.drop_first()));
    }
}

/// Round trip: parsing what a well-formed store of plain entries
/// renders yields exactly that store's mapping, so writing the backing
/// file and reading it back preserves every key-value pair.
pub proof fn lemma_render_parse_round_trip(e: Envie)
    requires
        e.wf(),
        plain_entries(e.variables@),
    ensures
        parse_spec(render_spec(e.variables@)) == e@,
{
    lemma_parse_render_lines(Map::empty(), e.variables@);
    lemma_insert_all_map_of(e.variables@);
}

} // verus!
