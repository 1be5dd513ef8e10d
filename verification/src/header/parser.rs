//! The grammar of header values.
//!
//! A field holds values separated by `,`; a value holds a token and
//! parameters separated by `;`; a parameter holds a key and, behind the
//! first `=`, a value. A separator counts only outside double-quoted
//! regions. A `"` opens or closes such a region unless a `\` stands right
//! before it.

use vstd::prelude::*;
use crate::router::params::{new_params, set_params, Params};
use crate::text::{chars_of, string_of, trim, trimmed};
use super::Value;

verus! {

/// Whether the character at `i` is a `"` that opens or closes a quoted
/// region.
pub open spec fn toggles(s: Seq<char>, i: int) -> bool {
    s[i] == '"' && (i == 0 || s[i - 1] != '\\')
}

/// Whether the place before the character at `i` lies inside a quoted
/// region.
pub open spec fn in_quotes(s: Seq<char>, i: int) -> bool
    decreases i,
{
    if i <= 0 {
        false
    } else {
        in_quotes(s, i - 1) != toggles(s, i - 1)
    }
}

/// Whether the character at `i` is the separator `d` and counts as one.
pub open spec fn cuts(s: Seq<char>, d: char, i: int) -> bool {
    0 <= i < s.len() && s[i] == d && !toggles(s, i) && !in_quotes(s, i)
}

/// The first index from `from` on at which `d` cuts, or `s.len()`.
pub open spec fn next_cut(s: Seq<char>, d: char, from: int) -> int
    decreases s.len() - from,
{
    if from < 0 || from >= s.len() {
        s.len() as int
    } else if cuts(s, d, from) {
        from
    } else {
        next_cut(s, d, from + 1)
    }
}

/// The pieces of `s` from `start` on, cut at `d`. What follows the last
/// separator is a piece unless it is empty.
pub open spec fn pieces_from(s: Seq<char>, d: char, start: int) -> Seq<Seq<char>>
    decreases s.len() - start,
{
    let cut = next_cut(s, d, start);
    if 0 <= start <= cut < s.len() {
        seq![s.subrange(start, cut)] + pieces_from(s, d, cut + 1)
    } else if 0 <= start < s.len() {
        seq![s.subrange(start, s.len() as int)]
    } else {
        Seq::empty()
    }
}

/// The pieces of `s`, cut at `d`.
pub open spec fn pieces(s: Seq<char>, d: char) -> Seq<Seq<char>> {
    pieces_from(s, d, 0)
}

/// The first `n` pieces of `s`, or all of them if there are fewer.
pub open spec fn first_pieces(s: Seq<char>, d: char, n: nat) -> Seq<Seq<char>> {
    if n < pieces(s, d).len() {
        pieces(s, d).take(n as int)
    } else {
        pieces(s, d)
    }
}

/// `s` without one pair of double quotes around it, if it has one.
pub open spec fn unquoted(s: Seq<char>) -> Seq<char> {
    if s.len() >= 2 && s[0] == '"' && s.last() == '"' {
        s.subrange(1, s.len() - 1)
    } else {
        s
    }
}

/// The text of a token: trimmed, and without a pair of quotes around it.
pub open spec fn field(s: Seq<char>) -> Seq<char> {
    unquoted(trim(s))
}

/// The key and the value of a parameter: what stands before and behind the
/// first `=` that counts; a parameter without one has the empty value.
pub open spec fn key_value(entry: Seq<char>) -> (Seq<char>, Seq<char>) {
    let eq = next_cut(entry, '=', 0);
    if 0 <= eq < entry.len() {
        (field(entry.take(eq)), field(entry.skip(eq + 1)))
    } else {
        (field(entry), Seq::empty())
    }
}

/// The parameters that `entries` declare, later ones overriding earlier
/// ones of the same key.
pub open spec fn parameters(entries: Seq<Seq<char>>) -> Map<Seq<char>, Seq<char>>
    decreases entries.len(),
{
    if entries.len() == 0 {
        Map::empty()
    } else {
        let (key, value) = key_value(entries.last());
        parameters(entries.drop_last()).insert(key, value)
    }
}

/// What a value says: its token, and its parameters.
pub open spec fn value_of(text: Seq<char>) -> (Seq<char>, Map<Seq<char>, Seq<char>>) {
    let parts = pieces(text, ';');
    if parts.len() == 0 {
        (Seq::empty(), Map::empty())
    } else {
        (field(parts[0]), parameters(parts.skip(1)))
    }
}

/// `next_cut` finds the first separator that counts.
pub proof fn lemma_next_cut(s: Seq<char>, d: char, from: int, k: int)
    requires
        0 <= from <= k <= s.len(),
        forall|j: int| from <= j < k ==> !cuts(s, d, j),
        k < s.len() ==> cuts(s, d, k),
    ensures
        next_cut(s, d, from) == k,
    decreases k - from,
{
    if from < k {
        lemma_next_cut(s, d, from + 1, k);
    }
}

/// Cuts `value` at the separators that count and hands back the pieces:
/// the first `n` of them under the limit `Some(n)`, all of them under `None`.
fn cut_field(value: &str, delimiter: char, limit: Option<usize>) -> (values: Vec<String>)
    requires
        limit matches Some(n) ==> n > 0,
    ensures
        values.deep_view() == match limit {
            Some(n) => first_pieces(value@, delimiter, n as nat),
            None => pieces(value@, delimiter),
        },
{
    let chars = chars_of(value);
    let len = chars.len();
    let mut values: Vec<String> = Vec::new();
    let mut should_skip = false;
    let mut start: usize = 0;
    let mut index: usize = 0;
    assert(values.deep_view() =~= Seq::<Seq<char>>::empty());
    while index < len
        invariant
            start <= index <= len == chars@.len(),
            chars@ == value@,
            limit matches Some(n) ==> values@.len() < n,
            should_skip == in_quotes(chars@, index as int),
            forall|j: int| start <= j < index ==> !cuts(chars@, delimiter, j),
            values.deep_view() + pieces_from(chars@, delimiter, start as int) == pieces(
                chars@,
                delimiter,
            ),
        decreases len - index,
    {
        let c = chars[index];
        let toggling = c == '"' && (index == 0 || chars[index - 1] != '\\');
        assert(toggling == toggles(chars@, index as int));
        if toggling {
            should_skip = !should_skip;
        } else if c == delimiter && !should_skip {
            let ghost before = values.deep_view();
            proof {
                lemma_next_cut(chars@, delimiter, start as int, index as int);
            }
            values.push(string_of(&chars, start, index));
            proof {
                assert(values.deep_view() =~= before + seq![
                    chars@.subrange(start as int, index as int),
                ]);
                assert(values.deep_view() + pieces_from(chars@, delimiter, index + 1) =~= before
                    + pieces_from(chars@, delimiter, start as int));
            }
            let full = match limit {
                Some(n) => values.len() >= n,
                None => false,
            };
            if full {
                proof {
                    let all = pieces(chars@, delimiter);
                    assert(values.deep_view().len() == values@.len());
                    assert(all.take(values@.len() as int) =~= values.deep_view());
                    if all.len() == values@.len() {
                        assert(all =~= values.deep_view());
                    }
                }
                return values;
            }
            start = index + 1;
        }
        index = index + 1;
    }
    let ghost before = values.deep_view();
    proof {
        lemma_next_cut(chars@, delimiter, start as int, len as int);
    }
    if start != len {
        values.push(string_of(&chars, start, len));
        proof {
            assert(values.deep_view() =~= before + seq![chars@.subrange(start as int, len as int)]);
        }
    } else {
        proof {
            assert(before + Seq::<Seq<char>>::empty() =~= before);
        }
    }
    proof {
        assert(values.deep_view().len() == values@.len());
        assert(values.deep_view() =~= pieces(chars@, delimiter));
    }
    values
}

/// Cuts `value` at the separators that count and hands back the first `n`
/// pieces.
pub fn field_string_split_max_n(value: &str, delimiter: char, n: usize) -> (values: Vec<String>)
    requires
        n > 0,
    ensures
        values.deep_view() == first_pieces(value@, delimiter, n as nat),
{
    cut_field(value, delimiter, Some(n))
}

/// Cuts `value` at every separator that counts.
pub fn field_string_split_all(value: &str, delimiter: char) -> (values: Vec<String>)
    ensures
        values.deep_view() == pieces(value@, delimiter),
{
    cut_field(value, delimiter, None)
}

/// The text of a token: `value` without the white space around it and
/// without one pair of double quotes around what is left.
pub fn trim_field_value(value: &str) -> (text: String)
    ensures
        text@ == field(value@),
{
    let chars = chars_of(trimmed(value).as_str());
    let n = chars.len();
    if n >= 2 && chars[0] == '"' && chars[n - 1] == '"' {
        string_of(&chars, 1, n - 1)
    } else {
        proof {
            assert(chars@.subrange(0, n as int) =~= chars@);
        }
        string_of(&chars, 0, n)
    }
}

/// Reads one parameter into `params`.
fn parameter(entry: &str, params: &mut Params)
    ensures
        final(params)@ == old(params)@.insert(key_value(entry@).0, key_value(entry@).1),
{
    let chars = chars_of(entry);
    let len = chars.len();
    let mut should_skip = false;
    let mut index: usize = 0;
    while index < len
        invariant
            index <= len == chars@.len(),
            should_skip == in_quotes(chars@, index as int),
            forall|j: int| 0 <= j < index ==> !cuts(chars@, '=', j),
        ensures
            index <= len,
            forall|j: int| 0 <= j < index ==> !cuts(chars@, '=', j),
            index < len ==> cuts(chars@, '=', index as int),
        decreases len - index,
    {
        let c = chars[index];
        let toggling = c == '"' && (index == 0 || chars[index - 1] != '\\');
        if toggling {
            should_skip = !should_skip;
        } else if c == '=' && !should_skip {
            break ;
        }
        index = index + 1;
    }
    proof {
        lemma_next_cut(chars@, '=', 0, index as int);
    }
    if index < len {
        let key = string_of(&chars, 0, index);
        let value = string_of(&chars, index + 1, len);
        proof {
            assert(chars@.subrange(0, index as int) =~= entry@.take(index as int));
            assert(chars@.subrange(index + 1, len as int) =~= entry@.skip(index + 1));
        }
        set_params(params, trim_field_value(key.as_str()), trim_field_value(value.as_str()));
    } else {
        set_params(params, trim_field_value(entry), String::new());
    }
}

/// Parses one value: its token, and the parameters behind it.
pub fn value(text: &str) -> (parsed: Value)
    ensures
        parsed@ == value_of(text@),
{
    let splitted = field_string_split_all(text, ';');
    assert(splitted.deep_view().len() == splitted@.len());
    if splitted.len() == 0 {
        return Value(String::new(), new_params());
    }
    let mut map = new_params();
    let mut i: usize = 1;
    let ghost parts = pieces(text@, ';');
    assert(parts.skip(1).take(0) =~= Seq::<Seq<char>>::empty());
    while i < splitted.len()
        invariant
            1 <= i <= splitted@.len(),
            splitted.deep_view() == parts,
            splitted@.len() == parts.len(),
            map@ == parameters(parts.skip(1).take(i - 1)),
        decreases splitted@.len() - i,
    {
        assert(splitted.deep_view()[i as int] == splitted@[i as int]@);
        parameter(splitted[i].as_str(), &mut map);
        proof {
            let done = parts.skip(1).take(i as int);
            assert(done.drop_last() =~= parts.skip(1).take(i - 1));
            assert(done.last() == parts[i as int]);
        }
        i = i + 1;
    }
    proof {
        assert(parts.skip(1).take(parts.len() - 1) =~= parts.skip(1));
        assert(splitted.deep_view()[0] == splitted@[0]@);
    }
    Value(trim_field_value(splitted[0].as_str()), map)
}

/// Parses every value of a field.
pub fn multi_values_field(field: &str) -> (values: Vec<Value>)
    ensures
        values@.len() == pieces(field@, ',').len(),
        forall|i: int|
            0 <= i < values@.len() ==> (#[trigger] values@[i])@ == value_of(pieces(field@, ',')[i]),
{
    let texts = field_string_split_all(field, ',');
    assert(texts.deep_view().len() == texts@.len());
    let mut values: Vec<Value> = Vec::new();
    let mut i: usize = 0;
    while i < texts.len()
        invariant
            i <= texts@.len(),
            texts.deep_view() == pieces(field@, ','),
            texts@.len() == pieces(field@, ',').len(),
            values@.len() == i,
            forall|j: int|
                0 <= j < i ==> (#[trigger] values@[j])@ == value_of(pieces(field@, ',')[j]),
        decreases texts@.len() - i,
    {
        assert(texts.deep_view()[i as int] == texts@[i as int]@);
        values.push(value(texts[i].as_str()));
        i = i + 1;
    }
    values
}

/// Parses the first value of a field; a field without values has none.
pub fn single_value_field(field: &str) -> (first: Option<Value>)
    ensures
        match first {
            Some(v) => pieces(field@, ',').len() > 0 && v@ == value_of(pieces(field@, ',')[0]),
            None => pieces(field@, ',').len() == 0,
        },
{
    let texts = field_string_split_max_n(field, ',', 1);
    assert(texts.deep_view().len() == texts@.len());
    if texts.len() > 0 {
        assert(texts.deep_view()[0] == texts@[0]@);
        Some(value(texts[0].as_str()))
    } else {
        None
    }
}

} // verus!
