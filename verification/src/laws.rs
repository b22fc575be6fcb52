//! The document-wide laws of the format, stated and proved over the model.
use vstd::prelude::*;

use crate::model::classify_all;
use crate::model::classify_spec;
use crate::model::crlf;
use crate::model::entry_count;
use crate::model::get_spec;
use crate::model::has_key;
use crate::model::is_entry_with_key;
use crate::model::join_crlf;
use crate::model::key_count;
use crate::model::lemma_first_newline_is;
use crate::model::parse_spec;
use crate::model::remove_spec;
use crate::model::render_all;
use crate::model::render_line;
use crate::model::set_spec;
use crate::model::split_lines;
use crate::model::strip_cr;
use crate::model::update_all;
use crate::model::LineModel;

verus! {

/// A raw line that survives a round trip on its own: it holds no `\n`, and
/// classifying it and rendering the classification gives the line back.
/// The empty line, an exact `[KEY:VALUE]` line and an ordinary comment line
/// are all such; a whitespace-only line or an entry line with trailing
/// whitespace is not.
pub open spec fn valid_line(l: Seq<char>) -> bool {
    !l.contains('\n') && render_line(classify_spec(l)) == l
}

proof fn lemma_get_update_all(ls: Seq<LineModel>, key: Seq<char>, value: Seq<char>)
    requires
        has_key(ls, key),
    ensures
        get_spec(update_all(ls, key, value), key) == Some(value),
    decreases ls.len(),
{
    let u = update_all(ls, key, value);
    assert(ls.len() > 0);
    if is_entry_with_key(ls.last(), key) {
        assert(u.last() == LineModel::Entry(key, value));
    } else {
        assert(u.last() == ls.last());
        assert(u.drop_last() =~= update_all(ls.drop_last(), key, value));
        let i = choose|i: int| 0 <= i < ls.len() && is_entry_with_key(#[trigger] ls[i], key);
        assert(i < ls.len() - 1);
        assert(is_entry_with_key(ls.drop_last()[i], key));
        lemma_get_update_all(ls.drop_last(), key, value);
    }
}

proof fn lemma_count_update_all(ls: Seq<LineModel>, key: Seq<char>, value: Seq<char>)
    ensures
        entry_count(update_all(ls, key, value)) == entry_count(ls),
    decreases ls.len(),
{
    if ls.len() == 0 {
        assert(update_all(ls, key, value) =~= Seq::<LineModel>::empty());
    } else {
        let u = update_all(ls, key, value);
        assert(u.drop_last() =~= update_all(ls.drop_last(), key, value));
        assert(u.last() is Entry <==> ls.last() is Entry);
        lemma_count_update_all(ls.drop_last(), key, value);
    }
}

proof fn lemma_get_update_all_other(
    ls: Seq<LineModel>,
    key: Seq<char>,
    value: Seq<char>,
    k2: Seq<char>,
)
    requires
        k2 != key,
    ensures
        get_spec(update_all(ls, key, value), k2) == get_spec(ls, k2),
    decreases ls.len(),
{
    if ls.len() == 0 {
        assert(update_all(ls, key, value) =~= Seq::<LineModel>::empty());
    } else {
        let u = update_all(ls, key, value);
        assert(u.drop_last() =~= update_all(ls.drop_last(), key, value));
        lemma_get_update_all_other(ls.drop_last(), key, value, k2);
        if is_entry_with_key(ls.last(), key) {
            assert(u.last() == LineModel::Entry(key, value));
        } else {
            assert(u.last() == ls.last());
        }
    }
}

/// Law: `set` creates or updates, never both. After `set(key, value)`,
/// looking `key` up yields exactly `value`; the number of entries grows by
/// one when the key was absent and is otherwise unchanged (duplicates are
/// all updated in place, none is added); and every other key still resolves
/// to what it resolved to before.
pub proof fn lemma_set_then_get(ls: Seq<LineModel>, key: Seq<char>, value: Seq<char>)
    ensures
        get_spec(set_spec(ls, key, value), key) == Some(value),
        entry_count(set_spec(ls, key, value)) == entry_count(ls) + if has_key(ls, key) {
            0nat
        } else {
            1nat
        },
        forall|k2: Seq<char>|
            k2 != key ==> get_spec(set_spec(ls, key, value), k2) == get_spec(ls, k2),
{
    if has_key(ls, key) {
        lemma_get_update_all(ls, key, value);
        lemma_count_update_all(ls, key, value);
        assert forall|k2: Seq<char>| k2 != key implies get_spec(set_spec(ls, key, value), k2)
            == get_spec(ls, k2) by {
            lemma_get_update_all_other(ls, key, value, k2);
        }
    } else {
        let p = ls.push(LineModel::Entry(key, value));
        assert(p.last() == LineModel::Entry(key, value));
        assert(p.drop_last() =~= ls);
    }
}

/// Law: after `remove(key)` the key is gone, exactly the lines it occupied
/// are gone (their number is what `remove` reports), and every other key
/// still resolves to what it resolved to before.
pub proof fn lemma_remove_then_get(ls: Seq<LineModel>, key: Seq<char>)
    ensures
        get_spec(remove_spec(ls, key), key) is None,
        entry_count(remove_spec(ls, key)) + key_count(ls, key) == entry_count(ls),
        forall|k2: Seq<char>|
            k2 != key ==> get_spec(remove_spec(ls, key), k2) == get_spec(ls, k2),
    decreases ls.len(),
{
    if ls.len() == 0 {
    } else {
        lemma_remove_then_get(ls.drop_last(), key);
        let rest = remove_spec(ls.drop_last(), key);
        if is_entry_with_key(ls.last(), key) {
        } else {
            let r = rest.push(ls.last());
            assert(r.drop_last() =~= rest);
            assert(r.last() == ls.last());
        }
        assert forall|k2: Seq<char>| k2 != key implies get_spec(remove_spec(ls, key), k2)
            == get_spec(ls, k2) by {
            if !is_entry_with_key(ls.last(), key) {
                let r = rest.push(ls.last());
                assert(r.drop_last() =~= rest);
                assert(r.last() == ls.last());
                assert(get_spec(rest, k2) == get_spec(ls.drop_last(), k2));
            } else {
                assert(get_spec(remove_spec(ls, key), k2) == get_spec(ls.drop_last(), k2));
            }
        }
    }
}

proof fn lemma_split_join(lines: Seq<Seq<char>>)
    requires
        forall|i: int| 0 <= i < lines.len() ==> !(#[trigger] lines[i]).contains('\n'),
        lines.len() > 0 ==> lines.last().len() > 0,
    ensures
        split_lines(join_crlf(lines)) == lines,
    decreases lines.len(),
{
    if lines.len() == 0 {
        assert(split_lines(join_crlf(lines)) =~= lines);
    } else if lines.len() == 1 {
        let text = lines[0];
        assert(join_crlf(lines) == text);
        assert forall|k: int| 0 <= k < text.len() implies text[k] != '\n' by {
            if text[k] == '\n' {
                assert(text.contains('\n'));
            }
        }
        lemma_first_newline_is(text, text.len() as int);
        assert(split_lines(text) =~= seq![text]);
        assert(seq![text] =~= lines);
    } else {
        let rest = lines.drop_first();
        let head = lines[0];
        let text = join_crlf(lines);
        assert(text == head + crlf() + join_crlf(rest));
        let j = head.len() as int + 1;
        assert forall|k: int| 0 <= k < j implies text[k] != '\n' by {
            if k < head.len() {
                assert(text[k] == head[k]);
                if head[k] == '\n' {
                    assert(head.contains('\n'));
                }
            } else {
                assert(text[k] == '\r');
            }
        }
        assert(text[j] == '\n');
        lemma_first_newline_is(text, j);
        assert(text.subrange(0, j) =~= head + seq!['\r']);
        assert(strip_cr(text.subrange(0, j)) =~= head);
        assert(text.subrange(j + 1, text.len() as int) =~= join_crlf(rest));
        assert(forall|i: int| 0 <= i < rest.len() ==> rest[i] == lines[i + 1]);
        assert(rest.last() == lines.last());
        lemma_split_join(rest);
        assert(split_lines(text) =~= seq![head] + rest);
        assert(seq![head] + rest =~= lines);
    }
}

/// Law: the round trip. Any text that is a sequence of individually valid
/// lines (see [`valid_line`]) joined with the canonical `\r\n` separator —
/// with no separator after the last line, so the last line is not empty —
/// parses and renders back to exactly itself.
pub proof fn lemma_render_read_round_trip(lines: Seq<Seq<char>>)
    requires
        forall|i: int| 0 <= i < lines.len() ==> valid_line(#[trigger] lines[i]),
        lines.len() > 0 ==> lines.last().len() > 0,
    ensures
        render_all(parse_spec(join_crlf(lines))) == join_crlf(lines),
{
    lemma_split_join(lines);
    assert(classify_all(lines).map_values(|l: LineModel| render_line(l)) =~= lines);
}

} // verus!
