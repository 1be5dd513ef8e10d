//! The parameters that a pattern captured from a request path.

use vstd::prelude::*;
use std::rc::Rc;
use crate::text::str_eq;

verus! {

/// Captured parameters: a map from parameter name to the fragment it matched.
///
/// The bindings are kept in the order in which they were made; where a name
/// is bound more than once, the latest binding is the one that counts.
#[derive(Debug)]
pub struct Params(Vec<(String, String)>);

pub type SharedParams = Rc<Params>;

/// The map that a list of bindings stands for: each binding in turn
/// overrides what was bound to its name before.
pub open spec fn bindings_map(bindings: Seq<(String, String)>) -> Map<Seq<char>, Seq<char>>
    decreases bindings.len(),
{
    if bindings.len() == 0 {
        Map::empty()
    } else {
        bindings_map(bindings.drop_last()).insert(bindings.last().0@, bindings.last().1@)
    }
}

/// A name that no binding mentions is not in the map.
pub proof fn lemma_bindings_absent(bindings: Seq<(String, String)>, key: Seq<char>)
    requires
        forall|j: int| 0 <= j < bindings.len() ==> bindings[j].0@ != key,
    ensures
        !bindings_map(bindings).contains_key(key),
    decreases bindings.len(),
{
    if bindings.len() > 0 {
        let init = bindings.drop_last();
        assert forall|j: int| 0 <= j < init.len() implies init[j].0@ != key by {
            assert(init[j] == bindings[j]);
        }
        lemma_bindings_absent(init, key);
    }
}

/// The map gives a name the value of the last binding that mentions it.
pub proof fn lemma_bindings_lookup(bindings: Seq<(String, String)>, i: int)
    requires
        0 <= i < bindings.len(),
        forall|j: int| i < j < bindings.len() ==> bindings[j].0@ != bindings[i].0@,
    ensures
        bindings_map(bindings).contains_key(bindings[i].0@),
        bindings_map(bindings)[bindings[i].0@] == bindings[i].1@,
    decreases bindings.len(),
{
    if i < bindings.len() - 1 {
        let init = bindings.drop_last();
        assert(init[i] == bindings[i]);
        assert forall|j: int| i < j < init.len() implies init[j].0@ != init[i].0@ by {
            assert(init[j] == bindings[j]);
        }
        lemma_bindings_lookup(init, i);
    }
}

impl View for Params {
    type V = Map<Seq<char>, Seq<char>>;

    closed spec fn view(&self) -> Map<Seq<char>, Seq<char>> {
        bindings_map(self.0@)
    }
}

impl Params {
    /// The value bound to `key`, if any.
    pub fn get(&self, key: &str) -> (value: Option<&str>)
        ensures
            match value {
                Some(v) => self@.contains_key(key@) && self@[key@] == v@,
                None => !self@.contains_key(key@),
            },
    {
        let mut i: usize = self.0.len();
        while i > 0
            invariant
                i <= self.0@.len(),
                forall|j: int| i <= j < self.0@.len() ==> self.0@[j].0@ != key@,
            decreases i,
        {
            i = i - 1;
            if str_eq(self.0[i].0.as_str(), key) {
                proof {
                    lemma_bindings_lookup(self.0@, i as int);
                }
                return Some(self.0[i].1.as_str());
            }
        }
        proof {
            lemma_bindings_absent(self.0@, key@);
        }
        None
    }

    pub(crate) fn insert(&mut self, key: String, value: String)
        ensures
            final(self)@ == old(self)@.insert(key@, value@),
    {
        let ghost before = self.0@;
        self.0.push((key, value));
        assert(self.0@.drop_last() =~= before);
    }
}

impl Clone for Params {
    fn clone(&self) -> (copy: Self)
        ensures
            copy@ == self@,
    {
        let mut bindings: Vec<(String, String)> = Vec::new();
        let mut i: usize = 0;
        while i < self.0.len()
            invariant
                i <= self.0@.len(),
                bindings@ == self.0@.take(i as int),
            decreases self.0@.len() - i,
        {
            bindings.push((self.0[i].0.clone(), self.0[i].1.clone()));
            assert(bindings@ =~= self.0@.take(i + 1));
            i = i + 1;
        }
        assert(self.0@.take(self.0@.len() as int) =~= self.0@);
        Params(bindings)
    }
}

impl PartialEq for Params {
    /// Two sets of parameters are equal when they bind the same names to the
    /// same values.
    fn eq(&self, other: &Self) -> (equal: bool) {
        let equal = self.within(other) && other.within(self);
        proof {
            if equal {
                assert(self@ =~= other@);
            }
        }
        equal
    }
}

impl Eq for Params {

}

impl vstd::std_specs::cmp::PartialEqSpecImpl for Params {
    open spec fn obeys_eq_spec() -> bool {
        true
    }

    open spec fn eq_spec(&self, other: &Self) -> bool {
        self@ == other@
    }
}

impl Params {
    /// Whether every name that `self` binds is bound to the same value in
    /// `other`.
    fn within(&self, other: &Params) -> (r: bool)
        ensures
            r == (forall|k: Seq<char>| #[trigger]
                self@.contains_key(k) ==> other@.contains_key(k) && other@[k] == self@[k]),
    {
        let mut i: usize = self.0.len();
        while i > 0
            invariant
                i <= self.0@.len(),
                forall|j: int|
                    i <= j < self.0@.len() ==> other@.contains_key(#[trigger] self.0@[j].0@)
                        && other@[self.0@[j].0@] == self@[self.0@[j].0@],
            decreases i,
        {
            i = i - 1;
            let key = self.0[i].0.as_str();
            let here = self.get(key);
            let there = other.get(key);
            proof {
                lemma_bindings_present(self.0@, i as int);
            }
            let agree = match (here, there) {
                (Some(a), Some(b)) => str_eq(a, b),
                _ => false,
            };
            if !agree {
                return false;
            }
        }
        proof {
            assert forall|k: Seq<char>| #[trigger]
                self@.contains_key(k) implies other@.contains_key(k) && other@[k] == self@[k] by {
                lemma_bindings_witness(self.0@, k);
                let j = choose|j: int| 0 <= j < self.0@.len() && self.0@[j].0@ == k;
                assert(other@.contains_key(self.0@[j].0@));
            }
        }
        true
    }
}

/// Every binding's name is in the map.
pub proof fn lemma_bindings_present(bindings: Seq<(String, String)>, i: int)
    requires
        0 <= i < bindings.len(),
    ensures
        bindings_map(bindings).contains_key(bindings[i].0@),
    decreases bindings.len(),
{
    if i < bindings.len() - 1 {
        let init = bindings.drop_last();
        assert(init[i] == bindings[i]);
        lemma_bindings_present(init, i);
    }
}

/// Every name in the map is the name of some binding.
pub proof fn lemma_bindings_witness(bindings: Seq<(String, String)>, key: Seq<char>)
    requires
        bindings_map(bindings).contains_key(key),
    ensures
        exists|j: int| 0 <= j < bindings.len() && bindings[j].0@ == key,
{
    if forall|j: int| 0 <= j < bindings.len() ==> bindings[j].0@ != key {
        lemma_bindings_absent(bindings, key);
    }
}

/// The parameters that `bindings` make, each binding overriding the ones
/// before it.
pub fn params_from(bindings: Vec<(String, String)>) -> (params: Params)
    ensures
        params@ == bindings_map(bindings@),
{
    Params(bindings)
}

pub fn set_params(param: &mut Params, key: String, value: String)
    ensures
        final(param)@ == old(param)@.insert(key@, value@),
{
    param.insert(key, value);
}

pub fn new_params() -> (params: Params)
    ensures
        params@ == Map::<Seq<char>, Seq<char>>::empty(),
{
    Params(Vec::new())
}

pub fn new_shared_params() -> (params: SharedParams)
    ensures
        params@ == Map::<Seq<char>, Seq<char>>::empty(),
{
    Rc::new(Params(Vec::new()))
}

} // verus!
