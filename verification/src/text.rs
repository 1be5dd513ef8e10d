//! Character-level helpers shared by the parsers.
//!
//! Contracts speak of a string through its view, the sequence of its
//! characters. The executable helpers convert between `&str`, `String` and
//! `Vec<char>` so that the parsers can index characters in constant time.

use vstd::prelude::*;
use vstd::std_specs::iter::IteratorSpec;
use vstd::utf8::{decode_utf8, encode_utf8, encode_utf8_decode_utf8, valid_utf8};

verus! {

/// `std::string::FromUtf8Error`, the error of `String::from_utf8`. Nothing
/// is said of what it holds.
#[verifier::external_type_specification]
#[verifier::external_body]
pub struct ExFromUtf8Error(std::string::FromUtf8Error);

/// Index of the first occurrence of `c` in `s`, or `s.len()` if there is none.
pub open spec fn find(s: Seq<char>, c: char) -> int
    decreases s.len(),
{
    if s.len() == 0 {
        0
    } else if s[0] == c {
        0
    } else {
        1 + find(s.drop_first(), c)
    }
}

/// `find` returns the least index holding `c`.
pub proof fn lemma_find(s: Seq<char>, c: char, k: int)
    requires
        0 <= k <= s.len(),
        forall|j: int| 0 <= j < k ==> s[j] != c,
        k < s.len() ==> s[k] == c,
    ensures
        find(s, c) == k,
    decreases k,
{
    if k > 0 {
        let t = s.drop_first();
        assert forall|j: int| 0 <= j < k - 1 implies t[j] != c by {
            assert(t[j] == s[j + 1]);
        }
        lemma_find(t, c, k - 1);
    }
}

/// What `find` returns lies in `0..=s.len()`, nothing before it is `c`, and
/// if it is an index, it holds `c`.
pub proof fn lemma_find_bounds(s: Seq<char>, c: char)
    ensures
        0 <= find(s, c) <= s.len(),
        forall|j: int| 0 <= j < find(s, c) ==> s[j] != c,
        find(s, c) < s.len() ==> s[find(s, c)] == c,
    decreases s.len(),
{
    if s.len() > 0 && s[0] != c {
        let t = s.drop_first();
        lemma_find_bounds(t, c);
        assert forall|j: int| 0 <= j < find(s, c) implies s[j] != c by {
            if j > 0 {
                assert(t[j - 1] == s[j]);
            }
        }
    }
}

/// The pieces of `s` that lie between occurrences of `d`, empty ones
/// included. A sequence without `d` is its own single piece.
pub open spec fn split(s: Seq<char>, d: char) -> Seq<Seq<char>>
    decreases s.len(),
{
    let k = find(s, d);
    if 0 <= k < s.len() {
        seq![s.take(k)] + split(s.skip(k + 1), d)
    } else {
        seq![s]
    }
}

/// Whether `c` is white space: what `char::is_whitespace` answers for it,
/// which is whether `c` has the Unicode property `White_Space`.
pub uninterp spec fn whitespace(c: char) -> bool;

/// `s` in lower case: what `str::to_lowercase` makes of it, which follows
/// the Unicode rules for lower case.
pub uninterp spec fn lowercase(s: Seq<char>) -> Seq<char>;

/// For each character of `s`, whether it is white space.
pub open spec fn blanks(s: Seq<char>) -> Seq<bool> {
    s.map_values(|c: char| whitespace(c))
}

/// The number of flags that are set at the start of `flags`.
pub open spec fn leading(flags: Seq<bool>) -> int
    decreases flags.len(),
{
    if flags.len() > 0 && flags[0] {
        1 + leading(flags.drop_first())
    } else {
        0
    }
}

/// The number of flags that are set at the end of `flags`.
pub open spec fn trailing(flags: Seq<bool>) -> int
    decreases flags.len(),
{
    if flags.len() > 0 && flags.last() {
        1 + trailing(flags.drop_last())
    } else {
        0
    }
}

/// Where the inner part of a sequence begins and ends whose elements are
/// flagged as `flags` says: behind the flagged elements at the start, and
/// before the flagged elements at the end of what is left.
pub open spec fn inner(flags: Seq<bool>) -> (int, int) {
    let lo = leading(flags);
    (lo, flags.len() - trailing(flags.skip(lo)))
}

/// `s` without the white space at its start and at its end.
pub open spec fn trim(s: Seq<char>) -> Seq<char> {
    s.subrange(inner(blanks(s)).0, inner(blanks(s)).1)
}

/// `leading` counts the flags up to the first that is not set.
pub proof fn lemma_leading(flags: Seq<bool>, k: int)
    requires
        0 <= k <= flags.len(),
        forall|j: int| 0 <= j < k ==> flags[j],
        k < flags.len() ==> !flags[k],
    ensures
        leading(flags) == k,
    decreases k,
{
    if k > 0 {
        let t = flags.drop_first();
        assert forall|j: int| 0 <= j < k - 1 implies t[j] by {
            assert(t[j] == flags[j + 1]);
        }
        lemma_leading(t, k - 1);
    }
}

/// `trailing` counts the flags back to the last that is not set.
pub proof fn lemma_trailing(flags: Seq<bool>, k: int)
    requires
        0 <= k <= flags.len(),
        forall|j: int| flags.len() - k <= j < flags.len() ==> flags[j],
        k < flags.len() ==> !flags[flags.len() - k - 1],
    ensures
        trailing(flags) == k,
    decreases k,
{
    if k > 0 {
        let t = flags.drop_last();
        assert forall|j: int| t.len() - (k - 1) <= j < t.len() implies t[j] by {
            assert(t[j] == flags[j]);
        }
        lemma_trailing(t, k - 1);
    }
}

/// The decimal digit that stands for `d`, for `d` below ten.
pub open spec fn digit(d: nat) -> char {
    if d == 0 {
        '0'
    } else if d == 1 {
        '1'
    } else if d == 2 {
        '2'
    } else if d == 3 {
        '3'
    } else if d == 4 {
        '4'
    } else if d == 5 {
        '5'
    } else if d == 6 {
        '6'
    } else if d == 7 {
        '7'
    } else if d == 8 {
        '8'
    } else {
        '9'
    }
}

/// `n` written in decimal, without leading zeros.
pub open spec fn decimal(n: nat) -> Seq<char>
    decreases n,
{
    if n < 10 {
        seq![digit(n)]
    } else {
        decimal(n / 10).push(digit(n % 10))
    }
}

/// The value of a decimal digit; `None` for any other character.
pub open spec fn digit_value(c: char) -> Option<nat> {
    if c == '0' {
        Some(0)
    } else if c == '1' {
        Some(1)
    } else if c == '2' {
        Some(2)
    } else if c == '3' {
        Some(3)
    } else if c == '4' {
        Some(4)
    } else if c == '5' {
        Some(5)
    } else if c == '6' {
        Some(6)
    } else if c == '7' {
        Some(7)
    } else if c == '8' {
        Some(8)
    } else if c == '9' {
        Some(9)
    } else {
        None
    }
}

/// The number that a run of decimal digits stands for; `None` if a
/// character of the run is no digit. The empty run stands for zero.
pub open spec fn digits_value(digits: Seq<char>) -> Option<nat>
    decreases digits.len(),
{
    if digits.len() == 0 {
        Some(0)
    } else {
        match (digits_value(digits.drop_last()), digit_value(digits.last())) {
            (Some(high), Some(low)) => Some(high * 10 + low),
            _ => None,
        }
    }
}

/// The number that `text` stands for as an unsigned decimal: one or more
/// digits, with at most a `+` before them and nothing else around them.
pub open spec fn number(text: Seq<char>) -> Option<nat> {
    let digits = if text.len() > 0 && text[0] == '+' {
        text.skip(1)
    } else {
        text
    };
    if digits.len() == 0 {
        None
    } else {
        digits_value(digits)
    }
}

/// `String::push`: the string afterwards is the string before with `c`
/// appended as its last character.
#[verifier::external_body]
pub(crate) fn push_char(s: &mut String, c: char)
    ensures
        final(s)@ == old(s)@.push(c),
{
    s.push(c)
}

/// `char::is_whitespace`: its answer for `c` goes by the name
/// `whitespace(c)`; nothing more is claimed of it.
#[verifier::external_body]
pub(crate) fn is_space(c: char) -> (r: bool)
    ensures
        r == whitespace(c),
{
    c.is_whitespace()
}

/// `str::to_lowercase`: what it makes of `s` goes by the name
/// `lowercase(s@)`; nothing more is claimed of it.
#[verifier::external_body]
pub(crate) fn to_lower(s: &str) -> (lower: String)
    ensures
        lower@ == lowercase(s@),
{
    s.to_lowercase()
}

/// `String::from_utf8`: where the bytes are valid UTF-8, the string that
/// is made of just these bytes; an error where they are not.
#[verifier::external_body]
pub(crate) fn from_utf8(bytes: Vec<u8>) -> (text: Result<String, std::string::FromUtf8Error>)
    ensures
        text is Ok <==> valid_utf8(bytes@),
        text matches Ok(s) ==> encode_utf8(s@) == bytes@,
{
    String::from_utf8(bytes)
}

/// The string that valid UTF-8 decodes to; `None` for bytes that are not
/// valid UTF-8.
pub(crate) fn decoded(bytes: &Vec<u8>) -> (text: Option<String>)
    ensures
        text is Some <==> valid_utf8(bytes@),
        text matches Some(s) ==> s@ == decode_utf8(bytes@),
{
    match from_utf8(bytes.clone()) {
        Ok(text) => {
            proof {
                encode_utf8_decode_utf8(text@);
            }
            Some(text)
        },
        Err(_) => None,
    }
}

/// For each character of `chars`, whether it is white space.
fn blanks_of(chars: &Vec<char>) -> (flags: Vec<bool>)
    ensures
        flags@ == blanks(chars@),
{
    let mut flags: Vec<bool> = Vec::new();
    let mut i: usize = 0;
    while i < chars.len()
        invariant
            i <= chars@.len(),
            flags@ == blanks(chars@).take(i as int),
        decreases chars@.len() - i,
    {
        flags.push(is_space(chars[i]));
        assert(flags@ =~= blanks(chars@).take(i + 1));
        i = i + 1;
    }
    assert(blanks(chars@).take(chars@.len() as int) =~= blanks(chars@));
    flags
}

/// The bounds of the inner part of a sequence whose elements are flagged
/// as `flags` says: what is left when the flagged elements at its two ends
/// are taken away.
pub fn inner_bounds(flags: &Vec<bool>) -> (bounds: (usize, usize))
    ensures
        (bounds.0 as int, bounds.1 as int) == inner(flags@),
        bounds.0 <= bounds.1 <= flags@.len(),
{
    let n = flags.len();
    let mut lo: usize = 0;
    while lo < n && flags[lo]
        invariant
            lo <= n == flags@.len(),
            forall|j: int| 0 <= j < lo ==> flags@[j],
        decreases n - lo,
    {
        lo = lo + 1;
    }
    let mut hi: usize = n;
    while hi > lo && flags[hi - 1]
        invariant
            lo <= hi <= n == flags@.len(),
            forall|j: int| hi <= j < n ==> flags@[j],
        decreases hi - lo,
    {
        hi = hi - 1;
    }
    proof {
        lemma_leading(flags@, lo as int);
        let rest = flags@.skip(lo as int);
        assert forall|j: int| rest.len() - (n - hi) <= j < rest.len() implies rest[j] by {
            assert(rest[j] == flags@[lo + j]);
        }
        if n - hi < rest.len() {
            assert(rest[rest.len() - (n - hi) - 1] == flags@[hi - 1]);
        }
        lemma_trailing(rest, n - hi);
    }
    (lo, hi)
}

/// `s` without the white space at its two ends.
pub(crate) fn trimmed(s: &str) -> (inner: String)
    ensures
        inner@ == trim(s@),
{
    let chars = chars_of(s);
    let flags = blanks_of(&chars);
    let (lo, hi) = inner_bounds(&flags);
    string_of(&chars, lo, hi)
}

/// The pieces of `s` between the occurrences of `d`.
pub(crate) fn split_on(s: &str, d: char) -> (parts: Vec<String>)
    ensures
        parts.deep_view() == split(s@, d),
{
    let chars = chars_of(s);
    let n = chars.len();
    let mut parts: Vec<String> = Vec::new();
    let mut start: usize = 0;
    let mut i: usize = 0;
    assert(parts.deep_view() =~= Seq::<Seq<char>>::empty());
    assert(chars@.skip(0) =~= chars@);
    while i < n
        invariant
            start <= i <= n == chars@.len(),
            chars@ == s@,
            forall|j: int| start <= j < i ==> chars@[j] != d,
            parts.deep_view() + split(chars@.skip(start as int), d) == split(s@, d),
        decreases n - i,
    {
        if chars[i] == d {
            let ghost tail = chars@.skip(start as int);
            let ghost before = parts.deep_view();
            proof {
                assert forall|j: int| 0 <= j < i - start implies tail[j] != d by {
                    assert(tail[j] == chars@[start + j]);
                }
                lemma_find(tail, d, i - start);
                assert(tail.skip(i - start + 1) =~= chars@.skip(i + 1));
                assert(tail.take(i - start) =~= chars@.subrange(start as int, i as int));
            }
            parts.push(string_of(&chars, start, i));
            proof {
                assert(parts.deep_view() =~= before + seq![chars@.subrange(start as int, i as int)]);
                assert(parts.deep_view() + split(chars@.skip(i + 1), d) =~= before + split(tail, d));
            }
            start = i + 1;
        }
        i = i + 1;
    }
    let ghost tail = chars@.skip(start as int);
    let ghost before = parts.deep_view();
    proof {
        assert forall|j: int| 0 <= j < n - start implies tail[j] != d by {
            assert(tail[j] == chars@[start + j]);
        }
        lemma_find(tail, d, n - start);
    }
    parts.push(string_of(&chars, start, n));
    proof {
        assert(chars@.subrange(start as int, n as int) =~= tail);
        assert(parts.deep_view() =~= before + seq![tail]);
    }
    parts
}

/// The characters of `s`, in order.
pub(crate) fn chars_of(s: &str) -> (v: Vec<char>)
    ensures
        v@ == s@,
{
    let mut v: Vec<char> = Vec::new();
    for c in iter: s.chars()
        invariant
            iter.seq() == s@,
            v@ == s@.take(iter.index()),
    {
        v.push(c);
    }
    v
}

/// The string made of `v[from..to]`.
pub(crate) fn string_of(v: &Vec<char>, from: usize, to: usize) -> (s: String)
    requires
        from <= to <= v.len(),
    ensures
        s@ == v@.subrange(from as int, to as int),
{
    let mut s = String::new();
    let mut i: usize = from;
    while i < to
        invariant
            from <= i <= to <= v.len(),
            s@ == v@.subrange(from as int, i as int),
        decreases to - i,
    {
        push_char(&mut s, v[i]);
        i = i + 1;
    }
    s
}

fn digit_of(d: usize) -> (c: char)
    requires
        d < 10,
    ensures
        c == digit(d as nat),
{
    if d == 0 {
        '0'
    } else if d == 1 {
        '1'
    } else if d == 2 {
        '2'
    } else if d == 3 {
        '3'
    } else if d == 4 {
        '4'
    } else if d == 5 {
        '5'
    } else if d == 6 {
        '6'
    } else if d == 7 {
        '7'
    } else if d == 8 {
        '8'
    } else {
        '9'
    }
}

/// `n` written in decimal.
pub(crate) fn decimal_of(n: usize) -> (s: String)
    ensures
        s@ == decimal(n as nat),
    decreases n,
{
    if n < 10 {
        let mut s = String::new();
        push_char(&mut s, digit_of(n));
        s
    } else {
        let mut s = decimal_of(n / 10);
        push_char(&mut s, digit_of(n % 10));
        s
    }
}

fn digit_value_of(c: char) -> (value: Option<usize>)
    ensures
        match value {
            Some(v) => digit_value(c) == Some(v as nat) && v < 10,
            None => digit_value(c) is None,
        },
{
    if c == '0' {
        Some(0)
    } else if c == '1' {
        Some(1)
    } else if c == '2' {
        Some(2)
    } else if c == '3' {
        Some(3)
    } else if c == '4' {
        Some(4)
    } else if c == '5' {
        Some(5)
    } else if c == '6' {
        Some(6)
    } else if c == '7' {
        Some(7)
    } else if c == '8' {
        Some(8)
    } else if c == '9' {
        Some(9)
    } else {
        None
    }
}

/// A run of digits stands for no less than any run that it starts with.
proof fn lemma_digits_grow(digits: Seq<char>, k: int)
    requires
        0 <= k <= digits.len(),
        digits_value(digits) is Some,
    ensures
        digits_value(digits.take(k)) is Some,
        digits_value(digits.take(k))->0 <= digits_value(digits)->0,
    decreases digits.len() - k,
{
    if k == digits.len() {
        assert(digits.take(k) =~= digits);
    } else {
        lemma_digits_grow(digits, k + 1);
        assert(digits.take(k + 1).drop_last() =~= digits.take(k));
    }
}

/// A run of characters with something other than a digit in it stands for
/// no number.
proof fn lemma_digits_none(digits: Seq<char>, k: int)
    requires
        0 <= k < digits.len(),
        digit_value(digits[k]) is None,
    ensures
        digits_value(digits) is None,
    decreases digits.len(),
{
    if k < digits.len() - 1 {
        lemma_digits_none(digits.drop_last(), k);
    }
}

/// Reads `text` as an unsigned decimal number; `None` where it is none, or
/// one too large for `usize`.
pub(crate) fn parse_usize(text: &str) -> (value: Option<usize>)
    ensures
        value == match number(text@) {
            Some(n) => if n <= usize::MAX {
                Some(n as usize)
            } else {
                None
            },
            None => None,
        },
{
    let chars = chars_of(text);
    let len = chars.len();
    let first: usize = if len > 0 && chars[0] == '+' {
        1
    } else {
        0
    };
    let ghost digits = chars@.skip(first as int);
    proof {
        assert(chars@.skip(0) =~= chars@);
        assert(number(text@) == if digits.len() == 0 {
            None
        } else {
            digits_value(digits)
        });
    }
    if first == len {
        return None;
    }
    let mut value: usize = 0;
    let mut i: usize = first;
    assert(digits.take(0) =~= Seq::<char>::empty());
    while i < len
        invariant
            first <= i <= len == chars@.len(),
            digits == chars@.skip(first as int),
            number(text@) == digits_value(digits),
            digits_value(digits.take(i - first)) == Some(value as nat),
        decreases len - i,
    {
        let ghost upto = digits.take(i - first + 1);
        proof {
            assert(upto.drop_last() =~= digits.take(i - first));
            assert(upto.last() == chars@[i as int]);
        }
        match digit_value_of(chars[i]) {
            None => {
                proof {
                    assert(digits[i - first] == chars@[i as int]);
                    lemma_digits_none(digits, i - first);
                }
                return None;
            },
            Some(d) => {
                let next = match value.checked_mul(10) {
                    Some(tens) => tens.checked_add(d),
                    None => None,
                };
                match next {
                    Some(n) => {
                        value = n;
                    },
                    None => {
                        proof {
                            assert(digits_value(upto) == Some((value * 10 + d) as nat));
                            if digits_value(digits) is Some {
                                lemma_digits_grow(digits, i - first + 1);
                            }
                        }
                        return None;
                    },
                }
            },
        }
        i = i + 1;
    }
    proof {
        assert(digits.take(len - first) =~= digits);
    }
    Some(value)
}

/// Whether two strings hold the same characters.
pub(crate) fn str_eq(a: &str, b: &str) -> (r: bool)
    ensures
        r == (a@ == b@),
{
    let mut x = a.chars();
    let mut y = b.chars();
    let ghost mut n: int = 0;
    loop
        invariant
            0 <= n <= a@.len(),
            n <= b@.len(),
            x.remaining() == a@.skip(n),
            y.remaining() == b@.skip(n),
            a@.take(n) == b@.take(n),
            x.obeys_prophetic_iter_laws(),
            y.obeys_prophetic_iter_laws(),
        decreases a@.len() - n,
    {
        let p = x.next();
        let q = y.next();
        match (p, q) {
            (None, None) => {
                assert(a@ =~= a@.take(n));
                assert(b@ =~= b@.take(n));
                return true;
            },
            (Some(c), Some(d)) => {
                if c != d {
                    assert(a@[n] != b@[n]);
                    return false;
                }
                proof {
                    assert(a@.take(n + 1) =~= a@.take(n).push(a@[n]));
                    assert(b@.take(n + 1) =~= b@.take(n).push(b@[n]));
                    assert(a@.skip(n).drop_first() =~= a@.skip(n + 1));
                    assert(b@.skip(n).drop_first() =~= b@.skip(n + 1));
                    n = n + 1;
                }
            },
            _ => {
                assert(a@.len() != b@.len());
                return false;
            },
        }
    }
}

} // verus!
