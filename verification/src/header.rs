//! The header container and typed access to common header values.

pub mod parser;

use vstd::prelude::*;
use crate::router::params::Params;
use crate::text::{parse_usize, number, str_eq};
use self::parser::{multi_values_field, pieces, single_value_field, value_of};

verus! {

/// A parsed header value: its token, and its parameters.
#[derive(Debug)]
pub struct Value(pub String, pub Params);

impl View for Value {
    type V = (Seq<char>, Map<Seq<char>, Seq<char>>);

    open spec fn view(&self) -> (Seq<char>, Map<Seq<char>, Seq<char>>) {
        (self.0@, self.1@)
    }
}

/// Header lines by name. A name maps to the values of its lines, in the
/// order in which they were added; a name that is present has at least one.
#[derive(Debug)]
pub struct Headers {
    headers: Vec<(String, Vec<String>)>,
}

/// The map that a list of entries stands for.
pub open spec fn lines_map(entries: Seq<(String, Vec<String>)>) -> Map<Seq<char>, Seq<Seq<char>>>
    decreases entries.len(),
{
    if entries.len() == 0 {
        Map::empty()
    } else {
        lines_map(entries.drop_last()).insert(entries.last().0@, entries.last().1.deep_view())
    }
}

/// Whether no two entries have the same name.
pub open spec fn distinct_names(entries: Seq<(String, Vec<String>)>) -> bool {
    forall|i: int, j: int|
        0 <= i < j < entries.len() ==> (#[trigger] entries[i]).0@ != (#[trigger] entries[j]).0@
}

/// A name that no entry has is not in the map.
pub proof fn lemma_lines_absent(entries: Seq<(String, Vec<String>)>, key: Seq<char>)
    requires
        forall|j: int| 0 <= j < entries.len() ==> (#[trigger] entries[j]).0@ != key,
    ensures
        !lines_map(entries).contains_key(key),
    decreases entries.len(),
{
    if entries.len() > 0 {
        let init = entries.drop_last();
        assert forall|j: int| 0 <= j < init.len() implies (#[trigger] init[j]).0@ != key by {
            assert(init[j] == entries[j]);
        }
        lemma_lines_absent(init, key);
    }
}

/// The map gives the name of an entry the values of that entry.
pub proof fn lemma_lines_lookup(entries: Seq<(String, Vec<String>)>, i: int)
    requires
        0 <= i < entries.len(),
        distinct_names(entries),
    ensures
        lines_map(entries).contains_key(entries[i].0@),
        lines_map(entries)[entries[i].0@] == entries[i].1.deep_view(),
    decreases entries.len(),
{
    if i < entries.len() - 1 {
        let init = entries.drop_last();
        assert(init[i] == entries[i]);
        assert(entries[i].0@ != entries[entries.len() - 1].0@);
        assert forall|a: int, b: int| 0 <= a < b < init.len() implies (#[trigger] init[a]).0@
            != (#[trigger] init[b]).0@ by {
            assert(init[a] == entries[a] && init[b] == entries[b]);
        }
        lemma_lines_lookup(init, i);
    }
}

/// Giving the entry at `i` other values gives its name those values in the
/// map, and changes nothing else.
pub proof fn lemma_lines_update(
    before: Seq<(String, Vec<String>)>,
    after: Seq<(String, Vec<String>)>,
    i: int,
)
    requires
        0 <= i < before.len(),
        distinct_names(before),
        after.len() == before.len(),
        after[i].0@ == before[i].0@,
        forall|j: int| 0 <= j < before.len() && j != i ==> #[trigger] after[j] == before[j],
    ensures
        lines_map(after) == lines_map(before).insert(before[i].0@, after[i].1.deep_view()),
        distinct_names(after),
    decreases before.len(),
{
    let last = before.len() - 1;
    let b = before.drop_last();
    let a = after.drop_last();
    assert forall|x: int, y: int| 0 <= x < y < after.len() implies (#[trigger] after[x]).0@
        != (#[trigger] after[y]).0@ by {
        assert(before[x].0@ != before[y].0@);
    }
    if i == last {
        assert(a =~= b);
        assert(lines_map(after) =~= lines_map(before).insert(
            before[i].0@,
            after[i].1.deep_view(),
        ));
    } else {
        assert(before[i].0@ != before[last].0@);
        assert(after[last] == before[last]);
        assert forall|x: int, y: int| 0 <= x < y < b.len() implies (#[trigger] b[x]).0@
            != (#[trigger] b[y]).0@ by {
            assert(b[x] == before[x] && b[y] == before[y]);
        }
        assert(a[i].0@ == b[i].0@);
        assert forall|j: int| 0 <= j < b.len() && j != i implies #[trigger] a[j] == b[j] by {
            assert(a[j] == after[j]);
        }
        lemma_lines_update(b, a, i);
        assert(lines_map(after) =~= lines_map(before).insert(
            before[i].0@,
            after[i].1.deep_view(),
        ));
    }
}

/// The place of the entry named `key` among `entries`, or `entries.len()`
/// if no entry has that name.
pub open spec fn place(entries: Seq<(Seq<char>, Seq<Seq<char>>)>, key: Seq<char>) -> int
    decreases entries.len(),
{
    if entries.len() == 0 {
        0
    } else if entries[0].0 == key {
        0
    } else {
        1 + place(entries.drop_first(), key)
    }
}

/// `place` finds the first entry of the name.
pub proof fn lemma_place(entries: Seq<(Seq<char>, Seq<Seq<char>>)>, key: Seq<char>, k: int)
    requires
        0 <= k <= entries.len(),
        forall|j: int| 0 <= j < k ==> (#[trigger] entries[j]).0 != key,
        k < entries.len() ==> entries[k].0 == key,
    ensures
        place(entries, key) == k,
    decreases k,
{
    if k > 0 {
        let rest = entries.drop_first();
        assert forall|j: int| 0 <= j < k - 1 implies (#[trigger] rest[j]).0 != key by {
            assert(rest[j] == entries[j + 1]);
        }
        lemma_place(rest, key, k - 1);
    }
}

/// `entries` with `values` under `key`: in the place of the entry of that
/// name, or, where there is none, as a new entry at the end.
pub open spec fn put(
    entries: Seq<(Seq<char>, Seq<Seq<char>>)>,
    key: Seq<char>,
    values: Seq<Seq<char>>,
) -> Seq<(Seq<char>, Seq<Seq<char>>)> {
    let at = place(entries, key);
    if 0 <= at < entries.len() {
        entries.update(at, (key, values))
    } else {
        entries.push((key, values))
    }
}

/// The values that `entries` hold under `key`; none where no entry has that
/// name.
pub open spec fn values_in(entries: Seq<(Seq<char>, Seq<Seq<char>>)>, key: Seq<char>) -> Seq<
    Seq<char>,
> {
    let at = place(entries, key);
    if 0 <= at < entries.len() {
        entries[at].1
    } else {
        Seq::empty()
    }
}

/// What `place` returns lies in `0..=entries.len()`; no entry before it has
/// the name, and if it is an index, the entry there has it.
pub proof fn lemma_place_bounds(entries: Seq<(Seq<char>, Seq<Seq<char>>)>, key: Seq<char>)
    ensures
        0 <= place(entries, key) <= entries.len(),
        forall|j: int| 0 <= j < place(entries, key) ==> (#[trigger] entries[j]).0 != key,
        place(entries, key) < entries.len() ==> entries[place(entries, key)].0 == key,
    decreases entries.len(),
{
    if entries.len() > 0 && entries[0].0 != key {
        let rest = entries.drop_first();
        lemma_place_bounds(rest, key);
        assert forall|j: int| 0 <= j < place(entries, key) implies (#[trigger] entries[j]).0
            != key by {
            if j > 0 {
                assert(rest[j - 1] == entries[j]);
            }
        }
    }
}

/// After `put`, the name holds the values that were put, at the place where
/// it stood before; and to put again under the name is to have put once.
pub proof fn lemma_put(
    entries: Seq<(Seq<char>, Seq<Seq<char>>)>,
    key: Seq<char>,
    values: Seq<Seq<char>>,
    again: Seq<Seq<char>>,
)
    ensures
        place(put(entries, key, values), key) == place(entries, key),
        values_in(put(entries, key, values), key) == values,
        put(put(entries, key, values), key, again) == put(entries, key, again),
{
    lemma_place_bounds(entries, key);
    let at = place(entries, key);
    let now = put(entries, key, values);
    assert forall|j: int| 0 <= j < at implies (#[trigger] now[j]).0 != key by {
        assert(now[j] == entries[j]);
    }
    lemma_place(now, key, at);
    assert(put(now, key, again) =~= put(entries, key, again));
}

/// The entries of `into` once the lines of `from` have been added to them:
/// for each entry of `from` in turn, its values go behind those that its
/// name has, a name that is new going to the end.
pub open spec fn merged_entries(
    into: Seq<(Seq<char>, Seq<Seq<char>>)>,
    from: Seq<(Seq<char>, Seq<Seq<char>>)>,
) -> Seq<(Seq<char>, Seq<Seq<char>>)>
    decreases from.len(),
{
    if from.len() == 0 {
        into
    } else {
        let so_far = merged_entries(into, from.drop_last());
        put(so_far, from.last().0, values_in(so_far, from.last().0) + from.last().1)
    }
}

/// What `into` holds once the lines of `from` have been added to it: under
/// each name, the values that `into` had, then those of `from`.
pub open spec fn merged(
    into: Map<Seq<char>, Seq<Seq<char>>>,
    from: Map<Seq<char>, Seq<Seq<char>>>,
) -> Map<Seq<char>, Seq<Seq<char>>> {
    Map::new(
        |k: Seq<char>| into.contains_key(k) || from.contains_key(k),
        |k: Seq<char>|
            if into.contains_key(k) && from.contains_key(k) {
                into[k] + from[k]
            } else if into.contains_key(k) {
                into[k]
            } else {
                from[k]
            },
    )
}

impl View for Headers {
    type V = Map<Seq<char>, Seq<Seq<char>>>;

    closed spec fn view(&self) -> Map<Seq<char>, Seq<Seq<char>>> {
        lines_map(self.headers@)
    }
}

impl Headers {
    #[verifier::type_invariant]
    spec fn inv(&self) -> bool {
        &&& distinct_names(self.headers@)
        &&& forall|i: int| 0 <= i < self.headers@.len() ==> (#[trigger] self.headers@[i]).1@.len() > 0
    }

    /// The names with their values, in the order in which the names were
    /// first added.
    pub closed spec fn entries(&self) -> Seq<(Seq<char>, Seq<Seq<char>>)> {
        self.headers@.map_values(|e: (String, Vec<String>)| (e.0@, e.1.deep_view()))
    }

    pub fn new() -> (headers: Headers)
        ensures
            headers@ == Map::<Seq<char>, Seq<Seq<char>>>::empty(),
            headers.entries() == Seq::<(Seq<char>, Seq<Seq<char>>)>::empty(),
    {
        let headers = Headers { headers: Vec::new() };
        assert(headers.entries() =~= Seq::<(Seq<char>, Seq<Seq<char>>)>::empty());
        headers
    }

    /// The position of the entry named `key`.
    fn position(&self, key: &str) -> (at: Option<usize>)
        ensures
            match at {
                Some(i) => i < self.headers@.len() && self.headers@[i as int].0@ == key@ && place(
                    self.entries(),
                    key@,
                ) == i,
                None => place(self.entries(), key@) == self.headers@.len() && forall|j: int|
                    0 <= j < self.headers@.len() ==> (#[trigger] self.headers@[j]).0@ != key@,
            },
    {
        let mut i: usize = 0;
        while i < self.headers.len()
            invariant
                i <= self.headers@.len(),
                forall|j: int| 0 <= j < i ==> (#[trigger] self.headers@[j]).0@ != key@,
            decreases self.headers@.len() - i,
        {
            if str_eq(self.headers[i].0.as_str(), key) {
                proof {
                    assert forall|j: int| 0 <= j < i implies (#[trigger] self.entries()[j]).0
                        != key@ by {
                        assert(self.headers@[j].0@ != key@);
                    }
                    lemma_place(self.entries(), key@, i as int);
                }
                return Some(i);
            }
            i = i + 1;
        }
        proof {
            assert forall|j: int| 0 <= j < self.entries().len() implies (#[trigger] self.entries()[j]).0
                != key@ by {
                assert(self.headers@[j].0@ != key@);
            }
            lemma_place(self.entries(), key@, self.entries().len() as int);
        }
        None
    }

    /// Makes `value` the only value of `key`.
    pub fn set(&mut self, key: String, value: String) -> (headers: &Self)
        ensures
            final(self)@ == old(self)@.insert(key@, seq![value@]),
            final(self).entries() == put(old(self).entries(), key@, seq![value@]),
            *headers == *final(self),
    {
        proof {
            use_type_invariant(&*self);
        }
        let ghost before = self.headers@;
        let ghost listed = self.entries();
        let mut values: Vec<String> = Vec::new();
        values.push(value);
        assert(values.deep_view() =~= seq![value@]);
        let at = self.position(key.as_str());
        let mut entries: Vec<(String, Vec<String>)> = Vec::new();
        core::mem::swap(&mut entries, &mut self.headers);
        match at {
            Some(i) => {
                entries[i].1 = values;
                proof {
                    lemma_lines_update(before, entries@, i as int);
                }
            },
            None => {
                entries.push((key, values));
                proof {
                    assert(entries@.drop_last() =~= before);
                }
            },
        }
        core::mem::swap(&mut entries, &mut self.headers);
        proof {
            assert(self.entries() =~= put(listed, key@, seq![value@]));
        }
        self
    }

    /// The first value of `key`.
    pub fn get(&self, key: &str) -> (value: Option<&String>)
        ensures
            match value {
                Some(v) => self@.contains_key(key@) && self@[key@].len() > 0 && v@ == self@[key@][0],
                None => !self@.contains_key(key@),
            },
            self@.contains_key(key@) ==> self@[key@] == values_in(self.entries(), key@),
            self@.contains_key(key@) <==> place(self.entries(), key@) < self.entries().len(),
    {
        proof {
            use_type_invariant(self);
        }
        match self.position(key) {
            Some(i) => {
                proof {
                    lemma_lines_lookup(self.headers@, i as int);
                    assert(self.headers@[i as int].1.deep_view()[0] == self.headers@[i as int].1@[0]@);
                }
                Some(&self.headers[i].1[0])
            },
            None => {
                proof {
                    lemma_lines_absent(self.headers@, key@);
                }
                None
            },
        }
    }

    /// The values of `key`, in the order in which they were added.
    pub fn get_all(&self, key: &str) -> (values: Option<&Vec<String>>)
        ensures
            match values {
                Some(v) => self@.contains_key(key@) && v.deep_view() == self@[key@],
                None => !self@.contains_key(key@),
            },
            self@.contains_key(key@) ==> self@[key@] == values_in(self.entries(), key@),
            self@.contains_key(key@) <==> place(self.entries(), key@) < self.entries().len(),
    {
        proof {
            use_type_invariant(self);
        }
        match self.position(key) {
            Some(i) => {
                proof {
                    lemma_lines_lookup(self.headers@, i as int);
                }
                Some(&self.headers[i].1)
            },
            None => {
                proof {
                    lemma_lines_absent(self.headers@, key@);
                }
                None
            },
        }
    }

    /// Adds `value` behind the values that `key` has.
    pub fn append(&mut self, key: String, value: String) -> (headers: &Self)
        ensures
            final(self)@ == old(self)@.insert(
                key@,
                if old(self)@.contains_key(key@) {
                    old(self)@[key@].push(value@)
                } else {
                    seq![value@]
                },
            ),
            final(self).entries() == put(
                old(self).entries(),
                key@,
                values_in(old(self).entries(), key@).push(value@),
            ),
            *headers == *final(self),
    {
        proof {
            use_type_invariant(&*self);
        }
        let ghost before = self.headers@;
        let ghost listed = self.entries();
        let at = self.position(key.as_str());
        let mut entries: Vec<(String, Vec<String>)> = Vec::new();
        core::mem::swap(&mut entries, &mut self.headers);
        match at {
            Some(i) => {
                let ghost had = entries@[i as int].1.deep_view();
                entries[i].1.push(value);
                proof {
                    lemma_lines_lookup(before, i as int);
                    lemma_lines_update(before, entries@, i as int);
                    assert(entries@[i as int].1.deep_view() =~= had.push(value@));
                }
            },
            None => {
                let mut values: Vec<String> = Vec::new();
                values.push(value);
                assert(values.deep_view() =~= seq![value@]);
                entries.push((key, values));
                proof {
                    lemma_lines_absent(before, key@);
                    assert(entries@.drop_last() =~= before);
                }
            },
        }
        core::mem::swap(&mut entries, &mut self.headers);
        proof {
            assert(Seq::<Seq<char>>::empty().push(value@) =~= seq![value@]);
            assert(self.entries() =~= put(listed, key@, values_in(listed, key@).push(value@)));
        }
        self
    }

    /// The values of the `accept` header.
    pub fn accept(&self) -> (values: Option<Vec<Value>>)
        ensures
            self.typed_values("accept"@, values),
    {
        self.get_multi_values("accept")
    }

    /// The values of the `accept-encoding` header.
    pub fn accept_encoding(&self) -> (values: Option<Vec<Value>>)
        ensures
            self.typed_values("accept-encoding"@, values),
    {
        self.get_multi_values("accept-encoding")
    }

    /// The value of the `content-type` header.
    pub fn content_type(&self) -> (value: Option<Value>)
        ensures
            self.typed_value("content-type"@, value),
    {
        self.get_value("content-type")
    }

    /// The length that the `content-length` header states.
    pub fn content_length(&self) -> (length: Option<usize>)
        ensures
            length == match self.stated_length() {
                Some(n) => if n <= usize::MAX {
                    Some(n as usize)
                } else {
                    None
                },
                None => None,
            },
    {
        match self.get_value("content-length") {
            Some(v) => parse_usize(v.0.as_str()),
            None => None,
        }
    }

    /// The number that the first value of the first `content-length` line
    /// holds as its token, if the header is present and holds one.
    pub open spec fn stated_length(&self) -> Option<nat> {
        if self@.contains_key("content-length"@) && pieces(self@["content-length"@][0], ',').len() > 0 {
            number(value_of(pieces(self@["content-length"@][0], ',')[0]).0)
        } else {
            None
        }
    }

    /// `value` is what the first line of `key` holds as its first value.
    pub open spec fn typed_value(&self, key: Seq<char>, value: Option<Value>) -> bool {
        match value {
            Some(v) => self@.contains_key(key) && pieces(self@[key][0], ',').len() > 0 && v@
                == value_of(pieces(self@[key][0], ',')[0]),
            None => !self@.contains_key(key) || pieces(self@[key][0], ',').len() == 0,
        }
    }

    /// `values` are the values that the first line of `key` holds.
    pub open spec fn typed_values(&self, key: Seq<char>, values: Option<Vec<Value>>) -> bool {
        match values {
            Some(v) => {
                &&& self@.contains_key(key)
                &&& v@.len() == pieces(self@[key][0], ',').len()
                &&& forall|i: int|
                    0 <= i < v@.len() ==> (#[trigger] v@[i])@ == value_of(pieces(self@[key][0], ',')[i])
            },
            None => !self@.contains_key(key),
        }
    }

    /// The first value of the first line of `key`.
    pub fn get_value(&self, key: &str) -> (value: Option<Value>)
        ensures
            self.typed_value(key@, value),
    {
        match self.get(key) {
            Some(line) => single_value_field(line.as_str()),
            None => None,
        }
    }

    /// The values of the first line of `key`.
    pub fn get_multi_values(&self, key: &str) -> (values: Option<Vec<Value>>)
        ensures
            self.typed_values(key@, values),
    {
        match self.get(key) {
            Some(line) => Some(multi_values_field(line.as_str())),
            None => None,
        }
    }

    /// The values of every line of `key`, line by line.
    pub fn get_multi_values_all(&self, key: &str) -> (values: Option<Vec<Vec<Value>>>)
        ensures
            match values {
                Some(lines) => {
                    &&& self@.contains_key(key@)
                    &&& lines@.len() == self@[key@].len()
                    &&& forall|l: int|
                        0 <= l < lines@.len() ==> self.line_values(key@, l, #[trigger] lines@[l])
                },
                None => !self@.contains_key(key@),
            },
    {
        match self.get_all(key) {
            Some(texts) => {
                let mut lines: Vec<Vec<Value>> = Vec::new();
                let mut l: usize = 0;
                assert(texts.deep_view().len() == texts@.len());
                while l < texts.len()
                    invariant
                        l <= texts@.len(),
                        self@.contains_key(key@),
                        texts.deep_view() == self@[key@],
                        texts@.len() == self@[key@].len(),
                        lines@.len() == l,
                        forall|m: int| 0 <= m < l ==> self.line_values(key@, m, #[trigger] lines@[m]),
                    decreases texts@.len() - l,
                {
                    assert(texts.deep_view()[l as int] == texts@[l as int]@);
                    lines.push(multi_values_field(texts[l].as_str()));
                    l = l + 1;
                }
                Some(lines)
            },
            None => None,
        }
    }

    /// `values` are the values that line `l` of `key` holds.
    pub open spec fn line_values(&self, key: Seq<char>, l: int, values: Vec<Value>) -> bool {
        &&& values@.len() == pieces(self@[key][l], ',').len()
        &&& forall|i: int|
            0 <= i < values@.len() ==> (#[trigger] values@[i])@ == value_of(pieces(self@[key][l], ',')[i])
    }

    /// The number of names.
    pub fn len(&self) -> (n: usize)
        ensures
            n == self.entries().len(),
    {
        self.headers.len()
    }

    /// The name and the values of entry `i`, in the order in which the names
    /// were first added.
    pub fn entry(&self, i: usize) -> (entry: (&String, &Vec<String>))
        requires
            i < self.entries().len(),
        ensures
            self@.contains_key(entry.0@),
            self@[entry.0@] == entry.1.deep_view(),
            (entry.0@, entry.1.deep_view()) == self.entries()[i as int],
    {
        proof {
            use_type_invariant(self);
            lemma_lines_lookup(self.headers@, i as int);
        }
        (&self.headers[i].0, &self.headers[i].1)
    }
}

/// Adds the lines of `from` to `to`: under each name of `from`, its values
/// go behind those that `to` has under that name.
pub fn merge_copy(from: &Headers, to: &mut Headers)
    ensures
        final(to)@ == merged(old(to)@, from@),
        final(to).entries() == merged_entries(old(to).entries(), from.entries()),
{
    proof {
        use_type_invariant(from);
    }
    let ghost start = to@;
    let ghost listed = to.entries();
    let mut i: usize = 0;
    assert(from.headers@.take(0) =~= Seq::<(String, Vec<String>)>::empty());
    assert(to@ =~= merged(start, lines_map(from.headers@.take(0))));
    assert(from.entries().take(0) =~= Seq::<(Seq<char>, Seq<Seq<char>>)>::empty());
    while i < from.headers.len()
        invariant
            i <= from.headers@.len(),
            from.entries().len() == from.headers@.len(),
            distinct_names(from.headers@),
            forall|k: int| 0 <= k < from.headers@.len() ==> (#[trigger] from.headers@[k]).1@.len() > 0,
            to@ == merged(start, lines_map(from.headers@.take(i as int))),
            to.entries() == merged_entries(listed, from.entries().take(i as int)),
        decreases from.headers@.len() - i,
    {
        let ghost before = to@;
        let ghost so_far = to.entries();
        let ghost done = from.headers@.take(i as int);
        let ghost next = from.headers@.take(i + 1);
        let name = &from.headers[i].0;
        let values = &from.headers[i].1;
        let mut j: usize = 0;
        proof {
            assert(next.drop_last() =~= done);
            assert(next.last() == from.headers@[i as int]);
            assert forall|k: int| 0 <= k < done.len() implies (#[trigger] done[k]).0@ != name@ by {
                assert(done[k] == from.headers@[k]);
            }
            lemma_lines_absent(done, name@);
            assert(values.deep_view().len() == values@.len());
            assert(values.deep_view().take(0) =~= Seq::<Seq<char>>::empty());
        }
        while j < values.len()
            invariant
                j <= values@.len(),
                values@.len() > 0,
                j > 0 ==> to@.contains_key(name@),
                to.entries() == if j == 0 {
                    so_far
                } else {
                    put(so_far, name@, values_in(so_far, name@) + values.deep_view().take(j as int))
                },
                to@ == if j == 0 {
                    before
                } else {
                    before.insert(
                        name@,
                        if before.contains_key(name@) {
                            before[name@] + values.deep_view().take(j as int)
                        } else {
                            values.deep_view().take(j as int)
                        },
                    )
                },
            decreases values@.len() - j,
        {
            to.append(name.clone(), values[j].clone());
            proof {
                let all = values.deep_view();
                assert(all.take(j + 1) =~= all.take(j as int).push(values@[j as int]@));
                let old_values = values_in(so_far, name@);
                if j == 0 {
                    assert(old_values.push(values@[0]@) =~= old_values + all.take(1));
                } else {
                    lemma_put(
                        so_far,
                        name@,
                        old_values + all.take(j as int),
                        (old_values + all.take(j as int)).push(values@[j as int]@),
                    );
                    assert((old_values + all.take(j as int)).push(values@[j as int]@) =~= old_values
                        + all.take(j + 1));
                }
                if j == 0 {
                    if before.contains_key(name@) {
                        assert(before[name@] + all.take(1) =~= before[name@].push(values@[0]@));
                    } else {
                        assert(all.take(1) =~= seq![values@[0]@]);
                    }
                } else {
                    if before.contains_key(name@) {
                        assert(before[name@] + all.take(j + 1) =~= (before[name@] + all.take(
                            j as int,
                        )).push(values@[j as int]@));
                    }
                    assert(to@ =~= before.insert(
                        name@,
                        if before.contains_key(name@) {
                            before[name@] + all.take(j + 1)
                        } else {
                            all.take(j + 1)
                        },
                    ));
                }
            }
            j = j + 1;
        }
        proof {
            let all = values.deep_view();
            assert(all.take(all.len() as int) =~= all);
            assert(to@ =~= merged(start, lines_map(next)));
            let upto = from.entries().take(i + 1);
            assert(upto.drop_last() =~= from.entries().take(i as int));
            assert(upto.last() == (name@, all));
        }
        i = i + 1;
    }
    proof {
        assert(from.headers@.take(from.headers@.len() as int) =~= from.headers@);
        assert(from.entries().take(from.entries().len() as int) =~= from.entries());
    }
}

/// Adds the lines of `from` to `to`, as `merge_copy` does, and uses `from`
/// up.
pub fn merge_move(from: Headers, to: &mut Headers)
    ensures
        final(to)@ == merged(old(to)@, from@),
        final(to).entries() == merged_entries(old(to).entries(), from.entries()),
{
    merge_copy(&from, to)
}

} // verus!
