//! The executable document: classified lines, lookup, mutation and
//! rendering, each proved against the model in [`crate::model`].
use vstd::prelude::*;

use crate::model::all_alnum;
use crate::model::all_value_chars;
use crate::model::classify_all;
use crate::model::classify_spec;
use crate::model::crlf;
use crate::model::entries_spec;
use crate::model::entry_count;
use crate::model::entry_key;
use crate::model::entry_value;
use crate::model::first_colon;
use crate::model::get_spec;
use crate::model::has_key;
use crate::model::is_alnum_char;
use crate::model::is_entry_line;
use crate::model::is_entry_with_key;
use crate::model::is_space_char;
use crate::model::is_value_char;
use crate::model::key_count;
use crate::model::keys_spec;
use crate::model::lemma_first_colon_is;
use crate::model::lemma_first_newline_is;
use crate::model::lemma_join_push;
use crate::model::lemma_key_count_zero;
use crate::model::lemma_trim_end_is;
use crate::model::parse_spec;
use crate::model::remove_spec;
use crate::model::render_all;
use crate::model::render_line;
use crate::model::set_spec;
use crate::model::split_lines;
use crate::model::strip_cr;
use crate::model::update_all;
use crate::model::valid_token;
use crate::model::LineModel;
use crate::ConfigError;
use std::collections::HashMap;
use vstd::pervasive::VecAdditionalExecFns;
use vstd::std_specs::hash::obeys_key_model;
use vstd::string::StrSliceExecFns;
use vstd::string::StringExecFns;

verus! {

/// Does `c` belong to the whitespace class trimmed from line ends?
fn is_space(c: char) -> (b: bool)
    ensures
        b == is_space_char(c),
{
    c == ' ' || c == '\t' || c == '\n' || c == '\r' || c == '\u{b}' || c == '\u{c}'
}

/// Does `c` belong to the key/value alphanumeric class?
fn is_alnum(c: char) -> (b: bool)
    ensures
        b == is_alnum_char(c),
{
    let u = c as u32;
    (48 <= u && u <= 57) || (65 <= u && u <= 90) || (97 <= u && u <= 122)
}

/// Character-exact string equality.
fn str_eq(a: &str, b: &str) -> (r: bool)
    ensures
        r == (a@ == b@),
{
    let na = a.unicode_len();
    let nb = b.unicode_len();
    if na != nb {
        return false;
    }
    let mut i: usize = 0;
    while i < na
        invariant
            i <= na,
            na == a@.len(),
            na == b@.len(),
            forall|k: int| 0 <= k < i ==> a@[k] == b@[k],
        decreases na - i,
    {
        if a.get_char(i) != b.get_char(i) {
            return false;
        }
        i += 1;
    }
    proof {
        assert(a@ =~= b@);
    }
    true
}

/// Is `s` a non-empty, all-alphanumeric token, as `set` demands of keys and
/// values?
fn is_valid_token(s: &str) -> (r: bool)
    ensures
        r == valid_token(s@),
{
    let n = s.unicode_len();
    if n == 0 {
        return false;
    }
    let mut i: usize = 0;
    while i < n
        invariant
            i <= n,
            n == s@.len(),
            forall|k: int| 0 <= k < i ==> is_alnum_char(#[trigger] s@[k]),
        decreases n - i,
    {
        if !is_alnum(s.get_char(i)) {
            return false;
        }
        i += 1;
    }
    true
}

/// Attempts to read the (already trimmed) prefix `raw[..m]` as an entry
/// line `[KEY:VALUE]`.
#[verifier::loop_isolation(false)]
fn try_parse_entry(raw: &str, m: usize) -> (r: Option<Entry>)
    requires
        1 <= m <= raw@.len(),
    ensures
        match r {
            Some(e) => {
                &&& is_entry_line(raw@.subrange(0, m as int))
                &&& e.key@ == entry_key(raw@.subrange(0, m as int))
                &&& e.value@ == entry_value(raw@.subrange(0, m as int))
            },
            None => !is_entry_line(raw@.subrange(0, m as int)),
        },
{
    let ghost t = raw@.subrange(0, m as int);
    if m < 2 {
        return None;
    }
    if raw.get_char(0) != '[' || raw.get_char(m - 1) != ']' {
        return None;
    }
    let ghost inner = t.subrange(1, t.len() - 1);
    proof {
        assert(inner =~= raw@.subrange(1, m - 1));
    }
    let mut j: usize = 1;
    while j < m - 1 && raw.get_char(j) != ':'
        invariant
            1 <= j <= m - 1,
            m <= raw@.len(),
            forall|k: int| 1 <= k < j ==> raw@[k] != ':',
        decreases m - 1 - j,
    {
        j += 1;
    }
    proof {
        assert(forall|k: int| 0 <= k < j - 1 ==> #[trigger] inner[k] == raw@[k + 1]);
        lemma_first_colon_is(inner, j - 1);
    }
    if j == m - 1 {
        // no colon between the brackets
        return None;
    }
    if j == 1 {
        // empty key
        return None;
    }
    if j + 1 == m - 1 {
        // empty value
        return None;
    }
    // key characters: raw[1..j]
    let mut k: usize = 1;
    while k < j
        invariant
            1 <= k <= j,
            j < raw@.len(),
            forall|q: int| 1 <= q < k ==> is_alnum_char(#[trigger] raw@[q]),
        decreases j - k,
    {
        if !is_alnum(raw.get_char(k)) {
            proof {
                assert(inner.subrange(0, j - 1)[k - 1] == raw@[k as int]);
                assert(!all_alnum(inner.subrange(0, j - 1)));
            }
            return None;
        }
        k += 1;
    }
    // value characters: raw[j+1..m-1]
    let mut q: usize = j + 1;
    while q < m - 1
        invariant
            j + 1 <= q <= m - 1,
            m <= raw@.len(),
            forall|p: int| j + 1 <= p < q ==> is_value_char(#[trigger] raw@[p]),
        decreases m - 1 - q,
    {
        let c = raw.get_char(q);
        if !(is_alnum(c) || c == ':') {
            proof {
                assert(inner.subrange(j as int, inner.len() as int)[q - j - 1] == raw@[q as int]);
                assert(!all_value_chars(inner.subrange(j as int, inner.len() as int)));
            }
            return None;
        }
        q += 1;
    }
    let key = raw.substring_char(1, j).to_owned();
    let value = raw.substring_char(j + 1, m - 1).to_owned();
    proof {
        assert(first_colon(inner) == j - 1);
        assert(entry_key(t) =~= raw@.subrange(1, j as int));
        assert(entry_value(t) =~= raw@.subrange(j + 1, m - 1));
        assert(forall|p: int| 0 <= p < j - 1 ==> #[trigger] inner.subrange(0, j - 1)[p] == raw@[p + 1]);
        assert(all_alnum(inner.subrange(0, j - 1)));
        assert(forall|p: int|
            0 <= p < inner.len() - j ==> #[trigger] inner.subrange(j as int, inner.len() as int)[p]
                == raw@[p + j + 1]);
        assert(all_value_chars(inner.subrange(j as int, inner.len() as int)));
        assert(is_entry_line(t));
    }
    Some(Entry { key, value })
}

/// One `[KEY:VALUE]` pair.
#[derive(Clone, Debug)]
pub struct Entry {
    pub key: String,
    pub value: String,
}

impl Entry {
    pub fn new(key: String, value: String) -> (e: Self)
        ensures
            e.key == key,
            e.value == value,
    {
        Self { key, value }
    }

    pub fn get_value(&self) -> (v: &str)
        ensures
            v@ == self.value@,
    {
        self.value.as_str()
    }

    pub fn get_key(&self) -> (k: &str)
        ensures
            k@ == self.key@,
    {
        self.key.as_str()
    }

    pub fn set_value(&mut self, value: String)
        ensures
            final(self).key == old(self).key,
            final(self).value == value,
    {
        self.value = value;
    }
}

/// Classifies one raw physical line. Trailing whitespace is ignored for
/// the decision; a comment line keeps the raw text exactly.
fn classify_line(raw: &str) -> (l: Line)
    ensures
        l@ == classify_spec(raw@),
{
    let n = raw.unicode_len();
    let mut m: usize = n;
    while m > 0 && is_space(raw.get_char(m - 1))
        invariant
            m <= n,
            n == raw@.len(),
            forall|k: int| m <= k < n ==> is_space_char(#[trigger] raw@[k]),
        decreases m,
    {
        m -= 1;
    }
    proof {
        lemma_trim_end_is(raw@, m as int);
    }
    if m == 0 {
        return Line::Blank;
    }
    match try_parse_entry(raw, m) {
        Some(e) => Line::Entry(e),
        None => Line::Comment(raw.to_owned()),
    }
}

/// One classified line of a document.
#[derive(Clone, Debug)]
pub enum Line {
    Blank,
    Comment(String),
    Entry(Entry),
}

impl View for Entry {
    type V = LineModel;

    open spec fn view(&self) -> LineModel {
        LineModel::Entry(self.key@, self.value@)
    }
}

impl View for Line {
    type V = LineModel;

    open spec fn view(&self) -> LineModel {
        match self {
            Line::Blank => LineModel::Blank,
            Line::Comment(s) => LineModel::Comment(s@),
            Line::Entry(e) => e@,
        }
    }
}

/// The mapping a document collapses to: each entry inserted in sequence
/// order, so a duplicated key keeps the value of its last occurrence, in
/// line with what `get` answers.
pub open spec fn mapping_spec(lines: Seq<Line>) -> Map<String, String>
    decreases lines.len(),
{
    if lines.len() == 0 {
        Map::empty()
    } else {
        let rest = mapping_spec(lines.drop_last());
        match lines.last() {
            Line::Entry(e) => rest.insert(e.key, e.value),
            _ => rest,
        }
    }
}

/// A parsed configuration file: the ordered sequence of its classified
/// lines. Its view is the corresponding sequence of [`LineModel`]s.
#[derive(Clone, Debug)]
pub struct Config {
    lines: Vec<Line>,
}

impl View for Config {
    type V = Seq<LineModel>;

    closed spec fn view(&self) -> Seq<LineModel> {
        self.lines@.map_values(|l: Line| l@)
    }
}

impl Config {
    /// Creates an empty config.
    pub fn new() -> (c: Self)
        ensures
            c@ == Seq::<LineModel>::empty(),
    {
        let c = Self { lines: Vec::new() };
        proof {
            assert(c@ =~= Seq::<LineModel>::empty());
        }
        c
    }

    /// Number of entry lines present; blanks and comments do not count.
    pub fn len(&self) -> (n: usize)
        ensures
            n == entry_count(self@),
    {
        let mut n: usize = 0;
        let mut i: usize = 0;
        while i < self.lines.len()
            invariant
                i <= self.lines.len(),
                n <= i,
                n == entry_count(self@.subrange(0, i as int)),
            decreases self.lines.len() - i,
        {
            proof {
                assert(self@.subrange(0, i + 1).drop_last() =~= self@.subrange(0, i as int));
                assert(self@.subrange(0, i + 1).last() == self@[i as int]);
            }
            if let Line::Entry(_) = &self.lines[i] {
                n += 1;
            }
            i += 1;
        }
        proof {
            assert(self@.subrange(0, self.lines@.len() as int) =~= self@);
        }
        n
    }

    /// True when no entry line is present.
    pub fn is_empty(&self) -> (b: bool)
        ensures
            b == (entry_count(self@) == 0),
    {
        self.len() == 0
    }

    /// The value for `key`: of all entry lines with this key, the value of
    /// the last one in sequence order; `None` when no entry line has this
    /// key. Comparison is character-exact and case-sensitive.
    pub fn get(&self, key: &str) -> (r: Option<&str>)
        ensures
            match r {
                Some(v) => get_spec(self@, key@) == Some(v@),
                None => get_spec(self@, key@) is None,
            },
    {
        proof {
            assert(self@.subrange(0, self@.len() as int) =~= self@);
        }
        let mut i: usize = self.lines.len();
        while i > 0
            invariant
                i <= self.lines.len(),
                get_spec(self@, key@) == get_spec(self@.subrange(0, i as int), key@),
            decreases i,
        {
            i -= 1;
            proof {
                assert(self@.subrange(0, i + 1).drop_last() =~= self@.subrange(0, i as int));
                assert(self@.subrange(0, i + 1).last() == self@[i as int]);
            }
            if let Line::Entry(e) = &self.lines[i] {
                if str_eq(e.key.as_str(), key) {
                    return Some(e.value.as_str());
                }
            }
        }
        proof {
            assert(self@.subrange(0, 0) =~= Seq::<LineModel>::empty());
        }
        None
    }

    /// Sets `key` to `value`: every existing entry line with this key takes
    /// the new value in place; when none exists, one new entry line is
    /// appended at the end — never both. Rejected with `InvalidArgument`,
    /// leaving the document untouched, unless both `key` and `value` are
    /// non-empty and all alphanumeric.
    pub fn set(&mut self, key: &str, value: &str) -> (r: Result<(), ConfigError>)
        ensures
            match r {
                Ok(_) => valid_token(key@) && valid_token(value@) && final(self)@ == set_spec(
                    old(self)@,
                    key@,
                    value@,
                ),
                Err(e) => {
                    &&& !(valid_token(key@) && valid_token(value@))
                    &&& e == ConfigError::InvalidArgument
                    &&& final(self)@ == old(self)@
                },
            },
    {
        if !is_valid_token(key) || !is_valid_token(value) {
            return Err(ConfigError::InvalidArgument);
        }
        let ghost orig = self@;
        let mut n: usize = 0;
        let mut i: usize = 0;
        while i < self.lines.len()
            invariant
                i <= self.lines.len(),
                self@.len() == orig.len(),
                n <= i,
                n as nat == key_count(orig.subrange(0, i as int), key@),
                forall|k: int|
                    0 <= k < i ==> self@[k] == (if is_entry_with_key(orig[k], key@) {
                        LineModel::Entry(key@, value@)
                    } else {
                        orig[k]
                    }),
                forall|k: int| i <= k < orig.len() ==> self@[k] == orig[k],
            decreases self.lines.len() - i,
        {
            proof {
                assert(orig.subrange(0, i + 1).drop_last() =~= orig.subrange(0, i as int));
                assert(orig.subrange(0, i + 1).last() == orig[i as int]);
            }
            let mut is_match = false;
            if let Line::Entry(e) = &self.lines[i] {
                if str_eq(e.key.as_str(), key) {
                    is_match = true;
                }
            }
            proof {
                assert(self@[i as int] == orig[i as int]);
                assert(is_match == is_entry_with_key(orig[i as int], key@));
            }
            if is_match {
                let newline = Line::Entry(Entry { key: key.to_owned(), value: value.to_owned() });
                let ghost before = self@;
                self.lines.set(i, newline);
                proof {
                    assert(self@ =~= before.update(i as int, LineModel::Entry(key@, value@)));
                }
                n += 1;
            }
            i += 1;
        }
        proof {
            assert(orig.subrange(0, orig.len() as int) =~= orig);
            lemma_key_count_zero(orig, key@);
        }
        if n == 0 {
            let newline = Line::Entry(Entry { key: key.to_owned(), value: value.to_owned() });
            let ghost before = self@;
            proof {
                assert(forall|k: int|
                    0 <= k < orig.len() ==> !is_entry_with_key(#[trigger] orig[k], key@));
                assert(before =~= orig);
            }
            self.lines.push(newline);
            proof {
                assert(self@ =~= before.push(LineModel::Entry(key@, value@)));
            }
        } else {
            proof {
                assert(has_key(orig, key@));
                assert(self@ =~= update_all(orig, key@, value@));
            }
        }
        Ok(())
    }

    /// Deletes every entry line whose key is `key`, keeping the relative
    /// order of all remaining lines; returns how many lines were removed
    /// (zero when the key was absent).
    pub fn remove(&mut self, key: &str) -> (n: usize)
        ensures
            final(self)@ == remove_spec(old(self)@, key@),
            n as nat == key_count(old(self)@, key@),
    {
        let ghost orig = self@;
        let initial_len = self.lines.len();
        let mut n: usize = 0;
        let mut i: usize = 0;
        while i < self.lines.len()
            invariant
                orig.len() == initial_len,
                i + n <= orig.len(),
                self@.len() + n == orig.len(),
                i <= self@.len(),
                n as nat == key_count(orig.subrange(0, (i + n) as int), key@),
                self@.subrange(0, i as int) =~= remove_spec(
                    orig.subrange(0, (i + n) as int),
                    key@,
                ),
                forall|k: int| i <= k < self@.len() ==> self@[k] == orig[k + n],
            decreases self.lines.len() - i,
        {
            proof {
                assert(orig.subrange(0, (i + n + 1) as int).drop_last() =~= orig.subrange(
                    0,
                    (i + n) as int,
                ));
                assert(orig.subrange(0, (i + n + 1) as int).last() == orig[(i + n) as int]);
            }
            let mut is_match = false;
            if let Line::Entry(e) = &self.lines[i] {
                if str_eq(e.key.as_str(), key) {
                    is_match = true;
                }
            }
            proof {
                assert(self@[i as int] == orig[(i + n) as int]);
                assert(is_match == is_entry_with_key(orig[(i + n) as int], key@));
            }
            if is_match {
                let ghost before = self@;
                let _removed = self.lines.remove(i);
                proof {
                    assert(self@ =~= before.remove(i as int));
                    assert(self@.subrange(0, i as int) =~= before.subrange(0, i as int));
                    assert(forall|k: int|
                        i <= k < self@.len() ==> self@[k] == before[k + 1]);
                }
                n += 1;
            } else {
                proof {
                    assert(self@.subrange(0, i + 1) =~= self@.subrange(0, i as int).push(
                        self@[i as int],
                    ));
                }
                i += 1;
            }
        }
        proof {
            assert(i + n == orig.len());
            assert(orig.subrange(0, orig.len() as int) =~= orig);
            assert(self@.subrange(0, i as int) =~= self@);
        }
        n
    }

    /// Parses a whole text: the text splits at every `\n` (one `\r`
    /// before it belonging to the separator), and each physical line is
    /// classified in order. Parsing never fails: every line that is not a
    /// valid entry becomes a comment or a blank.
    #[verifier::loop_isolation(false)]
    pub fn read_str(input: &str) -> (c: Self)
        ensures
            c@ == parse_spec(input@),
    {
        let n = input.unicode_len();
        let mut lines: Vec<Line> = Vec::new();
        let mut pos: usize = 0;
        proof {
            assert(lines@.map_values(|l: Line| l@) =~= Seq::<LineModel>::empty());
            assert(input@.subrange(0, n as int) =~= input@);
        }
        while pos < n
            invariant
                pos <= n,
                parse_spec(input@) =~= lines@.map_values(|l: Line| l@) + classify_all(
                    split_lines(input@.subrange(pos as int, n as int)),
                ),
            decreases n - pos,
        {
            let ghost rest = input@.subrange(pos as int, n as int);
            let mut j: usize = pos;
            while j < n && input.get_char(j) != '\n'
                invariant
                    pos <= j <= n,
                    forall|k: int| pos <= k < j ==> input@[k] != '\n',
                decreases n - j,
            {
                j += 1;
            }
            proof {
                assert(forall|k: int| 0 <= k < rest.len() ==> #[trigger] rest[k] == input@[k + pos]);
                lemma_first_newline_is(rest, j - pos);
            }
            let end: usize = if j < n && j > pos && input.get_char(j - 1) == '\r' {
                j - 1
            } else {
                j
            };
            let piece = input.substring_char(pos, end);
            let line = classify_line(piece);
            let ghost lv = lines@.map_values(|l: Line| l@);
            let ghost next_rest = if j < n {
                input@.subrange(j + 1, n as int)
            } else {
                Seq::<char>::empty()
            };
            proof {
                if j < n {
                    assert(strip_cr(rest.subrange(0, j - pos)) =~= piece@);
                    assert(rest.subrange(j - pos + 1, rest.len() as int) =~= next_rest);
                    assert(split_lines(rest) == seq![piece@] + split_lines(next_rest));
                } else {
                    assert(rest =~= piece@);
                    assert(split_lines(rest) =~= seq![piece@]);
                    assert(split_lines(next_rest) =~= Seq::<Seq<char>>::empty());
                    assert(split_lines(rest) =~= seq![piece@] + split_lines(next_rest));
                }
                assert(classify_all(seq![piece@] + split_lines(next_rest)) =~= seq![
                    classify_spec(piece@),
                ] + classify_all(split_lines(next_rest)));
            }
            lines.push(line);
            proof {
                assert(lines@.map_values(|l: Line| l@) =~= lv.push(classify_spec(piece@)));
                assert(lv + (seq![classify_spec(piece@)] + classify_all(split_lines(next_rest)))
                    =~= lv.push(classify_spec(piece@)) + classify_all(split_lines(next_rest)));
            }
            pos = if j < n {
                j + 1
            } else {
                n
            };
        }
        proof {
            assert(split_lines(input@.subrange(n as int, n as int)) =~= Seq::<Seq<char>>::empty());
            assert(classify_all(Seq::<Seq<char>>::empty()) =~= Seq::<LineModel>::empty());
        }
        let c = Config { lines };
        proof {
            assert(c@ =~= parse_spec(input@));
        }
        c
    }

    /// Renders the document back to text: nothing for a blank line, the
    /// stored text for a comment, `[key:value]` for an entry, all joined
    /// with the two-character separator `\r\n` and with no trailing
    /// separator.
    #[verifier::loop_isolation(false)]
    pub fn print(&self) -> (s: String)
        ensures
            s@ == render_all(self@),
    {
        let mut out = String::new();
        proof {
            reveal_strlit("\r\n");
            reveal_strlit("[");
            reveal_strlit(":");
            reveal_strlit("]");
            assert("\r\n"@ =~= crlf());
            assert("["@ =~= seq!['[']);
            assert(":"@ =~= seq![':']);
            assert("]"@ =~= seq![']']);
            assert(self@.subrange(0, 0).map_values(|l: LineModel| render_line(l)) =~= Seq::<
                Seq<char>,
            >::empty());
        }
        let mut i: usize = 0;
        while i < self.lines.len()
            invariant
                i <= self.lines.len(),
                out@ == render_all(self@.subrange(0, i as int)),
            decreases self.lines.len() - i,
        {
            let ghost pieces = self@.subrange(0, i as int).map_values(
                |l: LineModel| render_line(l),
            );
            proof {
                assert(self@.subrange(0, i + 1).map_values(|l: LineModel| render_line(l))
                    =~= pieces.push(render_line(self@[i as int])));
                lemma_join_push(pieces, render_line(self@[i as int]));
            }
            if i > 0 {
                out.append("\r\n");
            }
            match &self.lines[i] {
                Line::Blank => {
                    proof {
                        assert(render_line(self@[i as int]) =~= Seq::<char>::empty());
                        assert(out@ =~= render_all(self@.subrange(0, i + 1)));
                    }
                },
                Line::Comment(x) => {
                    out.append(x.as_str());
                    proof {
                        assert(out@ =~= render_all(self@.subrange(0, i + 1)));
                    }
                },
                Line::Entry(e) => {
                    out.append("[");
                    out.append(e.key.as_str());
                    out.append(":");
                    out.append(e.value.as_str());
                    out.append("]");
                    proof {
                        assert(render_line(self@[i as int]) =~= seq!['['] + e.key@ + seq![':']
                            + e.value@ + seq![']']);
                        assert(out@ =~= render_all(self@.subrange(0, i + 1)));
                    }
                },
            }
            i += 1;
        }
        proof {
            assert(self@.subrange(0, self.lines@.len() as int) =~= self@);
        }
        out
    }

    /// The keys of all entry lines, in sequence order, duplicates included.
    #[verifier::loop_isolation(false)]
    pub fn keys_iter(&self) -> (r: Vec<String>)
        ensures
            r@.map_values(|s: String| s@) == keys_spec(self@),
    {
        let mut out: Vec<String> = Vec::new();
        proof {
            assert(out@.map_values(|s: String| s@) =~= keys_spec(self@.subrange(0, 0)));
        }
        let mut i: usize = 0;
        while i < self.lines.len()
            invariant
                i <= self.lines.len(),
                out@.map_values(|s: String| s@) == keys_spec(self@.subrange(0, i as int)),
            decreases self.lines.len() - i,
        {
            proof {
                assert(self@.subrange(0, i + 1).drop_last() =~= self@.subrange(0, i as int));
                assert(self@.subrange(0, i + 1).last() == self@[i as int]);
            }
            let ghost prev = out@.map_values(|s: String| s@);
            if let Line::Entry(e) = &self.lines[i] {
                out.push(e.key.clone());
                proof {
                    assert(out@.map_values(|s: String| s@) =~= prev.push(e.key@));
                }
            }
            i += 1;
        }
        proof {
            assert(self@.subrange(0, self.lines@.len() as int) =~= self@);
        }
        out
    }

    /// The (key, value) pairs of all entry lines, in sequence order.
    #[verifier::loop_isolation(false)]
    pub fn keys_values_iter(&self) -> (r: Vec<(String, String)>)
        ensures
            r@.map_values(|p: (String, String)| (p.0@, p.1@)) == entries_spec(self@),
    {
        let mut out: Vec<(String, String)> = Vec::new();
        proof {
            assert(out@.map_values(|p: (String, String)| (p.0@, p.1@)) =~= entries_spec(
                self@.subrange(0, 0),
            ));
        }
        let mut i: usize = 0;
        while i < self.lines.len()
            invariant
                i <= self.lines.len(),
                out@.map_values(|p: (String, String)| (p.0@, p.1@)) == entries_spec(
                    self@.subrange(0, i as int),
                ),
            decreases self.lines.len() - i,
        {
            proof {
                assert(self@.subrange(0, i + 1).drop_last() =~= self@.subrange(0, i as int));
                assert(self@.subrange(0, i + 1).last() == self@[i as int]);
            }
            let ghost prev = out@.map_values(|p: (String, String)| (p.0@, p.1@));
            if let Line::Entry(e) = &self.lines[i] {
                out.push((e.key.clone(), e.value.clone()));
                proof {
                    assert(out@.map_values(|p: (String, String)| (p.0@, p.1@)) =~= prev.push(
                        (e.key@, e.value@),
                    ));
                }
            }
            i += 1;
        }
        proof {
            assert(self@.subrange(0, self.lines@.len() as int) =~= self@);
        }
        out
    }

    /// The classified lines as an abstract sequence, for contracts that
    /// must speak of the executable key and value strings.
    pub closed spec fn line_seq(&self) -> Seq<Line> {
        self.lines@
    }

    /// Collapses the document to a unique-key mapping; with duplicate keys
    /// the last occurrence wins, as in `get`. vstd gives hash maps with
    /// `String` keys their meaning only under `obeys_key_model`, so the
    /// contract is stated under that premise.
    #[verifier::loop_isolation(false)]
    pub fn to_mapping(self) -> (r: HashMap<String, String>)
        ensures
            obeys_key_model::<String>() ==> r@ == mapping_spec(self.line_seq()),
            self.line_seq().map_values(|l: Line| l@) == self@,
    {
        broadcast use vstd::std_specs::hash::group_hash_axioms;

        let mut r: HashMap<String, String> = HashMap::new();
        let mut i: usize = 0;
        while i < self.lines.len()
            invariant
                i <= self.lines.len(),
                obeys_key_model::<String>() ==> r@ == mapping_spec(
                    self.lines@.subrange(0, i as int),
                ),
            decreases self.lines.len() - i,
        {
            proof {
                assert(self.lines@.subrange(0, i + 1).drop_last() =~= self.lines@.subrange(
                    0,
                    i as int,
                ));
                assert(self.lines@.subrange(0, i + 1).last() == self.lines@[i as int]);
            }
            if let Line::Entry(e) = &self.lines[i] {
                r.insert(e.key.clone(), e.value.clone());
            }
            i += 1;
        }
        proof {
            assert(self.lines@.subrange(0, self.lines@.len() as int) =~= self.lines@);
        }
        r
    }
}

impl Default for Config {
    fn default() -> (c: Self)
        ensures
            c@ == Seq::<LineModel>::empty(),
    {
        Config::new()
    }
}

} // verus!
