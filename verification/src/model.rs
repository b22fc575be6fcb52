//! The mathematical model of the format: how raw text splits into lines, how
//! a line classifies into blank / comment / entry, how a document of
//! classified lines answers lookups and reacts to mutation, and how it
//! renders back to text.
use vstd::prelude::*;

verus! {

/// One classified line, at the specification level.
pub enum LineModel {
    /// An originally empty (or whitespace-only) line.
    Blank,
    /// A line that is not a valid entry, kept verbatim.
    Comment(Seq<char>),
    /// A `[KEY:VALUE]` line, as its key and value.
    Entry(Seq<char>, Seq<char>),
}

/// The whitespace characters stripped from the end of a line before it is
/// classified.
pub open spec fn is_space_char(c: char) -> bool {
    c == ' ' || c == '\t' || c == '\n' || c == '\r' || c == '\u{b}' || c == '\u{c}'
}

/// The character class of keys, and of values set through the validated
/// mutator: ASCII letters and digits.
pub open spec fn is_alnum_char(c: char) -> bool {
    (48 <= c as u32 && c as u32 <= 57)  // '0' ..= '9'
    || (65 <= c as u32 && c as u32 <= 90)  // 'A' ..= 'Z'
    || (97 <= c as u32 && c as u32 <= 122)  // 'a' ..= 'z'
}

/// Values parsed from text may also hold `:`.
pub open spec fn is_value_char(c: char) -> bool {
    is_alnum_char(c) || c == ':'
}

pub open spec fn all_alnum(s: Seq<char>) -> bool {
    forall|i: int| 0 <= i < s.len() ==> is_alnum_char(#[trigger] s[i])
}

pub open spec fn all_value_chars(s: Seq<char>) -> bool {
    forall|i: int| 0 <= i < s.len() ==> is_value_char(#[trigger] s[i])
}

/// What `set` accepts as a key or a value: non-empty, all alphanumeric.
pub open spec fn valid_token(s: Seq<char>) -> bool {
    s.len() > 0 && all_alnum(s)
}

/// Index of the first `:` in `s`, or `s.len()` if there is none.
pub open spec fn first_colon(s: Seq<char>) -> int
    decreases s.len(),
{
    if s.len() == 0 {
        0
    } else if s[0] == ':' {
        0
    } else {
        1 + first_colon(s.drop_first())
    }
}

/// Index of the first `\n` in `s`, or `s.len()` if there is none.
pub open spec fn first_newline(s: Seq<char>) -> int
    decreases s.len(),
{
    if s.len() == 0 {
        0
    } else if s[0] == '\n' {
        0
    } else {
        1 + first_newline(s.drop_first())
    }
}

/// `s` with its trailing whitespace removed.
pub open spec fn trim_end_spec(s: Seq<char>) -> Seq<char>
    decreases s.len(),
{
    if s.len() == 0 {
        s
    } else if is_space_char(s.last()) {
        trim_end_spec(s.drop_last())
    } else {
        s
    }
}

/// Does the (already trimmed) line `t` match the entry grammar
/// `[` KEY `:` VALUE `]`, with KEY non-empty alphanumeric and VALUE
/// non-empty alphanumeric-or-colon? The key ends at the first `:`.
pub open spec fn is_entry_line(t: Seq<char>) -> bool {
    &&& t.len() >= 2
    &&& t[0] == '['
    &&& t[t.len() - 1] == ']'
    &&& {
        let inner = t.subrange(1, t.len() - 1);
        let j = first_colon(inner);
        &&& 1 <= j
        &&& j + 1 < inner.len()
        &&& all_alnum(inner.subrange(0, j))
        &&& all_value_chars(inner.subrange(j + 1, inner.len() as int))
    }
}

/// The key of an entry line: everything between `[` and the first `:`.
pub open spec fn entry_key(t: Seq<char>) -> Seq<char> {
    let inner = t.subrange(1, t.len() - 1);
    inner.subrange(0, first_colon(inner))
}

/// The value of an entry line: everything between the first `:` and the
/// final `]` (so a value may itself hold `:`).
pub open spec fn entry_value(t: Seq<char>) -> Seq<char> {
    let inner = t.subrange(1, t.len() - 1);
    inner.subrange(first_colon(inner) + 1, inner.len() as int)
}

/// Classification of one raw line. Trailing whitespace is ignored for the
/// decision only: a comment keeps the raw text untouched.
pub open spec fn classify_spec(raw: Seq<char>) -> LineModel {
    let t = trim_end_spec(raw);
    if t.len() == 0 {
        LineModel::Blank
    } else if is_entry_line(t) {
        LineModel::Entry(entry_key(t), entry_value(t))
    } else {
        LineModel::Comment(raw)
    }
}

/// One `\r` at the end of a piece cut before a `\n` belongs to the
/// separator and is dropped.
pub open spec fn strip_cr(s: Seq<char>) -> Seq<char> {
    if s.len() > 0 && s.last() == '\r' {
        s.drop_last()
    } else {
        s
    }
}

/// Physical lines of `text`: split at every `\n`, each piece cut before a
/// `\n` losing one trailing `\r`. A final separator produces no phantom
/// empty line; the empty text has no lines at all.
pub open spec fn split_lines(text: Seq<char>) -> Seq<Seq<char>>
    decreases text.len(),
{
    if text.len() == 0 {
        Seq::empty()
    } else {
        let j = first_newline(text);
        if 0 <= j < text.len() {
            seq![strip_cr(text.subrange(0, j))] + split_lines(
                text.subrange(j + 1, text.len() as int),
            )
        } else {
            seq![text]
        }
    }
}

pub open spec fn classify_all(lines: Seq<Seq<char>>) -> Seq<LineModel> {
    lines.map_values(|l: Seq<char>| classify_spec(l))
}

/// What parsing a whole text produces.
pub open spec fn parse_spec(text: Seq<char>) -> Seq<LineModel> {
    classify_all(split_lines(text))
}

/// The canonical line separator.
pub open spec fn crlf() -> Seq<char> {
    seq!['\r', '\n']
}

/// Text of one line: empty for a blank, verbatim for a comment,
/// `[key:value]` for an entry.
pub open spec fn render_line(l: LineModel) -> Seq<char> {
    match l {
        LineModel::Blank => Seq::empty(),
        LineModel::Comment(s) => s,
        LineModel::Entry(k, v) => seq!['['] + k + seq![':'] + v + seq![']'],
    }
}

/// The pieces joined with the canonical separator; no trailing separator.
pub open spec fn join_crlf(pieces: Seq<Seq<char>>) -> Seq<char>
    decreases pieces.len(),
{
    if pieces.len() == 0 {
        Seq::empty()
    } else if pieces.len() == 1 {
        pieces[0]
    } else {
        pieces[0] + crlf() + join_crlf(pieces.drop_first())
    }
}

/// What rendering a whole document produces.
pub open spec fn render_all(ls: Seq<LineModel>) -> Seq<char> {
    join_crlf(ls.map_values(|l: LineModel| render_line(l)))
}

pub open spec fn is_entry_with_key(l: LineModel, key: Seq<char>) -> bool {
    match l {
        LineModel::Entry(k, _) => k == key,
        _ => false,
    }
}

/// Number of entry lines; blanks and comments do not count.
pub open spec fn entry_count(ls: Seq<LineModel>) -> nat
    decreases ls.len(),
{
    if ls.len() == 0 {
        0
    } else {
        entry_count(ls.drop_last()) + if ls.last() is Entry {
            1nat
        } else {
            0nat
        }
    }
}

/// Number of entry lines whose key is `key`.
pub open spec fn key_count(ls: Seq<LineModel>, key: Seq<char>) -> nat
    decreases ls.len(),
{
    if ls.len() == 0 {
        0
    } else {
        key_count(ls.drop_last(), key) + if is_entry_with_key(ls.last(), key) {
            1nat
        } else {
            0nat
        }
    }
}

pub open spec fn has_key(ls: Seq<LineModel>, key: Seq<char>) -> bool {
    exists|i: int| 0 <= i < ls.len() && is_entry_with_key(#[trigger] ls[i], key)
}

/// Lookup: the value of the last entry line whose key is `key`.
pub open spec fn get_spec(ls: Seq<LineModel>, key: Seq<char>) -> Option<Seq<char>>
    decreases ls.len(),
{
    if ls.len() == 0 {
        None
    } else {
        match ls.last() {
            LineModel::Entry(k, v) => if k == key {
                Some(v)
            } else {
                get_spec(ls.drop_last(), key)
            },
            _ => get_spec(ls.drop_last(), key),
        }
    }
}

/// Every entry line with key `key` takes the new value, in place; every
/// other line is untouched.
pub open spec fn update_all(ls: Seq<LineModel>, key: Seq<char>, value: Seq<char>) -> Seq<
    LineModel,
> {
    ls.map_values(
        |l: LineModel|
            if is_entry_with_key(l, key) {
                LineModel::Entry(key, value)
            } else {
                l
            },
    )
}

/// `set`: update every existing entry with this key, or, when there is
/// none, append one new entry at the end. Never both.
pub open spec fn set_spec(ls: Seq<LineModel>, key: Seq<char>, value: Seq<char>) -> Seq<
    LineModel,
> {
    if has_key(ls, key) {
        update_all(ls, key, value)
    } else {
        ls.push(LineModel::Entry(key, value))
    }
}

/// `remove`: drop every entry line with this key, keeping the relative
/// order of all other lines.
pub open spec fn remove_spec(ls: Seq<LineModel>, key: Seq<char>) -> Seq<LineModel>
    decreases ls.len(),
{
    if ls.len() == 0 {
        Seq::empty()
    } else {
        let rest = remove_spec(ls.drop_last(), key);
        if is_entry_with_key(ls.last(), key) {
            rest
        } else {
            rest.push(ls.last())
        }
    }
}

/// The keys of all entry lines, in order, duplicates included.
pub open spec fn keys_spec(ls: Seq<LineModel>) -> Seq<Seq<char>>
    decreases ls.len(),
{
    if ls.len() == 0 {
        Seq::empty()
    } else {
        let rest = keys_spec(ls.drop_last());
        match ls.last() {
            LineModel::Entry(k, _) => rest.push(k),
            _ => rest,
        }
    }
}

/// The (key, value) pairs of all entry lines, in order.
pub open spec fn entries_spec(ls: Seq<LineModel>) -> Seq<(Seq<char>, Seq<char>)>
    decreases ls.len(),
{
    if ls.len() == 0 {
        Seq::empty()
    } else {
        let rest = entries_spec(ls.drop_last());
        match ls.last() {
            LineModel::Entry(k, v) => rest.push((k, v)),
            _ => rest,
        }
    }
}

/// `first_colon` is the index of the first colon: nothing before `j` is a
/// colon, and `j` (unless it is the length) holds one.
pub proof fn lemma_first_colon_is(s: Seq<char>, j: int)
    requires
        0 <= j <= s.len(),
        forall|k: int| 0 <= k < j ==> s[k] != ':',
        j < s.len() ==> s[j] == ':',
    ensures
        first_colon(s) == j,
    decreases s.len(),
{
    if s.len() == 0 {
    } else if s[0] == ':' {
        assert(j == 0);
    } else {
        assert(j >= 1);
        assert(forall|k: int| 0 <= k < j - 1 ==> s.drop_first()[k] == s[k + 1]);
        lemma_first_colon_is(s.drop_first(), j - 1);
    }
}

/// Same characterization for `first_newline`.
pub proof fn lemma_first_newline_is(s: Seq<char>, j: int)
    requires
        0 <= j <= s.len(),
        forall|k: int| 0 <= k < j ==> s[k] != '\n',
        j < s.len() ==> s[j] == '\n',
    ensures
        first_newline(s) == j,
    decreases s.len(),
{
    if s.len() == 0 {
    } else if s[0] == '\n' {
        assert(j == 0);
    } else {
        assert(j >= 1);
        assert(forall|k: int| 0 <= k < j - 1 ==> s.drop_first()[k] == s[k + 1]);
        lemma_first_newline_is(s.drop_first(), j - 1);
    }
}

/// `trim_end_spec(s)` is the prefix of `s` up to its last non-space
/// character.
pub proof fn lemma_trim_end_is(s: Seq<char>, m: int)
    requires
        0 <= m <= s.len(),
        forall|k: int| m <= k < s.len() ==> is_space_char(#[trigger] s[k]),
        m > 0 ==> !is_space_char(s[m - 1]),
    ensures
        trim_end_spec(s) == s.subrange(0, m),
    decreases s.len(),
{
    if s.len() == 0 {
        assert(trim_end_spec(s) =~= s.subrange(0, m));
    } else if m == s.len() {
        assert(!is_space_char(s.last()));
        assert(trim_end_spec(s) =~= s.subrange(0, m));
    } else {
        assert(is_space_char(s.last()));
        let d = s.drop_last();
        assert(forall|k: int| m <= k < d.len() ==> is_space_char(#[trigger] d[k]));
        lemma_trim_end_is(d, m);
        assert(d.subrange(0, m) =~= s.subrange(0, m));
    }
}

/// Joining one more piece appends a separator and the piece (no separator
/// when it is the first).
pub proof fn lemma_join_push(pieces: Seq<Seq<char>>, p: Seq<char>)
    ensures
        join_crlf(pieces.push(p)) == if pieces.len() == 0 {
            p
        } else {
            join_crlf(pieces) + crlf() + p
        },
    decreases pieces.len(),
{
    if pieces.len() == 0 {
        assert(pieces.push(p).len() == 1);
        assert(pieces.push(p)[0] == p);
    } else {
        assert(pieces.push(p)[0] == pieces[0]);
        assert(pieces.push(p).drop_first() =~= pieces.drop_first().push(p));
        lemma_join_push(pieces.drop_first(), p);
        if pieces.len() == 1 {
            assert(join_crlf(pieces.push(p)) =~= pieces[0] + crlf() + p);
            assert(join_crlf(pieces) == pieces[0]);
        } else {
            assert(pieces[0] + crlf() + (join_crlf(pieces.drop_first()) + crlf() + p) =~= (pieces[0]
                + crlf() + join_crlf(pieces.drop_first())) + crlf() + p);
        }
    }
}

/// A key occurs somewhere exactly when its occurrence count is positive.
pub proof fn lemma_key_count_zero(ls: Seq<LineModel>, key: Seq<char>)
    ensures
        (key_count(ls, key) == 0) <==> !has_key(ls, key),
    decreases ls.len(),
{
    if ls.len() == 0 {
    } else {
        lemma_key_count_zero(ls.drop_last(), key);
        if is_entry_with_key(ls.last(), key) {
            assert(is_entry_with_key(ls[ls.len() - 1], key));
            assert(has_key(ls, key));
        } else {
            if has_key(ls.drop_last(), key) {
                let i = choose|i: int|
                    0 <= i < ls.drop_last().len() && is_entry_with_key(
                        #[trigger] ls.drop_last()[i],
                        key,
                    );
                assert(is_entry_with_key(ls[i], key));
                assert(has_key(ls, key));
            }
            if has_key(ls, key) {
                let i = choose|i: int|
                    0 <= i < ls.len() && is_entry_with_key(#[trigger] ls[i], key);
                assert(i < ls.len() - 1);
                assert(is_entry_with_key(ls.drop_last()[i], key));
                assert(has_key(ls.drop_last(), key));
            }
        }
    }
}

} // verus!
