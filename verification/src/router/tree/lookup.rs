//! Matching: the handlers that serve a request, in dispatch order.

use vstd::prelude::*;
use std::rc::Rc;
use crate::request::Method;
use crate::router::handler::{share, SharedHandler};
use crate::router::params::{new_params, new_shared_params, Params, SharedParams};
use crate::text::str_eq;
use super::node::{parameter_of, parameter_view, Node, PrioritizedHandler};
use super::order::precedes;
use super::pattern::{
    ahead, captured, captures, fragment_matches, fragments, fragments_match, in_order, is_star,
    lemma_one_order, lemma_plan, method_serves, pattern_matches, plan, route, serves, split_path,
};
use super::Tree;

verus! {

/// A handler found for a request: the stamped handler, and what its pattern
/// captured from the path.
pub type Found<F> = (PrioritizedHandler<F>, SharedParams);

/// What the first `n` fragments capture depends on those fragments alone.
pub proof fn lemma_captured_prefix(
    one: Seq<Seq<char>>,
    other: Seq<Seq<char>>,
    request: Seq<Seq<char>>,
    n: nat,
)
    requires
        forall|t: int| 0 <= t < n ==> one[t] == other[t],
    ensures
        captured(one, request, n) == captured(other, request, n),
    decreases n,
{
    if n > 0 {
        lemma_captured_prefix(one, other, request, (n - 1) as nat);
    }
}

impl<F> Tree<F> {
    /// `found` is a registration under its stamp whose pattern matches
    /// `path`, with what the pattern captures from it.
    pub(super) closed spec fn found_ok(&self, found: Found<F>, path: Seq<char>) -> bool {
        let stamp = found.0.0 as int;
        &&& stamp < self.registered@.len()
        &&& *found.0.1 == self.registered@[stamp]
        &&& pattern_matches(self.registered@[stamp].path@, path)
        &&& found.1@ == captures(self.registered@[stamp].path@, path)
    }

    /// The node at which the registration `stamp` is stored.
    pub(super) closed spec fn home(&self, stamp: int) -> int {
        self.slots@[stamp].0
    }

    /// Node `d` lies below node `at`, a node of depth `i - 1`.
    pub(super) closed spec fn below(&self, d: int, at: int, i: int) -> bool {
        0 <= d < self.nodes@.len() && self.lines@[d].len() > i && self.lines@[d][i - 1] == at
    }

    /// The child of the node at depth `i - 1` through which node `d`, which
    /// lies below that node, is reached.
    pub(super) closed spec fn branch(&self, d: int, i: int) -> int {
        self.lines@[d][i]
    }

    /// The registration `stamp` is stored at a node of the trie, and the
    /// way to that node matches the request fragments.
    pub(super) closed spec fn wanted(&self, stamp: int, request: Seq<Seq<char>>) -> bool {
        let d = self.slots@[stamp].0;
        0 <= d < self.nodes@.len() && fragments_match(self.path_of(d), request)
    }

    /// A snapshot of the parameters captured so far, to be shared by the
    /// handlers of one node.
    fn build_parameters(param: &Params) -> (built: SharedParams)
        ensures
            built@ == param@,
    {
        Rc::new(param.clone())
    }

    /// Appends the handlers of `node` to `found`, each with `params`.
    fn collect(node: &Node<F>, params: &SharedParams, found: &mut Vec<Found<F>>)
        ensures
            final(found)@.len() == old(found)@.len() + node.handlers@.len(),
            forall|x: int| 0 <= x < old(found)@.len() ==> final(found)@[x] == old(found)@[x],
            forall|x: int|
                old(found)@.len() <= x < final(found)@.len() ==> (#[trigger] final(found)@[x]).0
                    == node.handlers@[x - old(found)@.len()] && final(found)@[x].1 == *params,
    {
        let ghost start = found@.len();
        let ghost initial = found@;
        let mut j: usize = 0;
        while j < node.handlers.len()
            invariant
                j <= node.handlers@.len(),
                found@.len() == start + j,
                forall|x: int| 0 <= x < start ==> found@[x] == initial[x],
                forall|x: int|
                    start <= x < start + j ==> (#[trigger] found@[x]).0 == node.handlers@[x - start]
                        && found@[x].1 == *params,
            decreases node.handlers@.len() - j,
        {
            let entry = &node.handlers[j];
            found.push(((entry.0, share(&entry.1)), share(params)));
            j = j + 1;
        }
    }

    /// Walks the trie below node `at` in step with the request fragments
    /// from `parts[i]` on, and appends to `found` the handlers of every node
    /// that the last fragment leads to. `parameters` holds what was captured
    /// on the way down to `at`.
    ///
    /// Every child whose fragment accepts the cursor is followed: a literal
    /// equal to it, the wildcard, and every parameter.
    pub(super) fn traverse(
        &self,
        parts: &Vec<String>,
        at: usize,
        i: usize,
        parameters: Params,
        found: &mut Vec<Found<F>>,
        Ghost(path): Ghost<Seq<char>>,
    )
        requires
            self.wf(),
            at < self.nodes@.len(),
            1 <= i <= parts@.len(),
            parts@.len() == fragments(path).len() + 1,
            forall|u: int| 1 <= u < parts@.len() ==> (#[trigger] parts@[u])@ == fragments(path)[u - 1],
            self.lines@[at as int].len() == i,
            forall|t: int|
                0 <= t < i - 1 ==> fragment_matches(
                    #[trigger] self.path_of(at as int)[t],
                    fragments(path)[t],
                ),
            parameters@ == captured(self.path_of(at as int), fragments(path), (i - 1) as nat),
        ensures
            final(found)@.len() >= old(found)@.len(),
            i >= parts@.len() ==> final(found)@.len() == old(found)@.len(),
            forall|x: int| 0 <= x < old(found)@.len() ==> final(found)@[x] == old(found)@[x],
            forall|x: int|
                old(found)@.len() <= x < final(found)@.len() ==> self.found_ok(
                    #[trigger] final(found)@[x],
                    path,
                ) && self.below(self.home(final(found)@[x].0.0 as int), at as int, i as int),
            forall|x: int, y: int|
                old(found)@.len() <= x < y < final(found)@.len() ==> (#[trigger] final(found)@[x]).0.0
                    != (#[trigger] final(found)@[y]).0.0,
            forall|stamp: int|
                0 <= stamp < self.registered@.len() && #[trigger] self.wanted(stamp, fragments(path))
                    && self.below(self.home(stamp), at as int, i as int) ==> exists|x: int|
                    old(found)@.len() <= x < final(found)@.len() && (#[trigger] final(found)@[x]).0.0
                        == stamp,
        decreases parts@.len() - i,
    {
        if i >= parts.len() {
            proof {
                // Nothing is wanted below a node that the whole path leads to.
                assert forall|stamp: int|
                    0 <= stamp < self.registered@.len() && #[trigger] self.wanted(
                        stamp,
                        fragments(path),
                    ) && self.below(self.home(stamp), at as int, i as int) implies false by {
                    let d = self.home(stamp);
                    assert(self.path_of(d).len() == self.lines@[d].len() - 1);
                }
            }
            return ;
        }
        let ghost request = fragments(path);
        let ghost initial = found@;
        let ghost base = found@.len() as int;
        let cursor = parts[i].as_str();
        assert(cursor@ == request[i - 1]);
        proof {
            assert(self.link_ok(at as int));
            assert(self.children_ok(at as int));
        }
        let mut a: usize = 0;
        while a < self.nodes[at].next.len()
            invariant
                self.wf(),
                at < self.nodes@.len(),
                1 <= i < parts.len(),
                request == fragments(path),
                parts@.len() == request.len() + 1,
                forall|u: int| 1 <= u < parts@.len() ==> (#[trigger] parts@[u])@ == request[u - 1],
                cursor@ == request[i - 1],
                self.lines@[at as int].len() == i,
                self.link_ok(at as int),
                self.children_ok(at as int),
                forall|t: int|
                    0 <= t < i - 1 ==> fragment_matches(#[trigger] self.path_of(at as int)[t], request[t]),
                parameters@ == captured(self.path_of(at as int), request, (i - 1) as nat),
                a <= self.nodes@[at as int].next@.len(),
                base == initial.len(),
                found@.len() >= base,
                forall|x: int| 0 <= x < base ==> found@[x] == initial[x],
                forall|x: int|
                    base <= x < found@.len() ==> self.found_ok(#[trigger] found@[x], path) && self.below(
                        self.home(found@[x].0.0 as int),
                        at as int,
                        i as int,
                    ),
                forall|x: int, b: int|
                    base <= x < found@.len() && a <= b < self.nodes@[at as int].next@.len()
                        ==> self.branch(self.home((#[trigger] found@[x]).0.0 as int), i as int)
                        != #[trigger] self.nodes@[at as int].next@[b],
                forall|x: int, y: int|
                    base <= x < y < found@.len() ==> (#[trigger] found@[x]).0.0 != (#[trigger] found@[y]).0.0,
                forall|stamp: int, b: int|
                    0 <= stamp < self.registered@.len() && #[trigger] self.wanted(stamp, request)
                        && self.below(self.home(stamp), at as int, i as int) && 0 <= b < a
                        && self.branch(self.home(stamp), i as int)
                        == #[trigger] self.nodes@[at as int].next@[b] ==> exists|x: int|
                        base <= x < found@.len() && (#[trigger] found@[x]).0.0 == stamp,
            decreases self.nodes@[at as int].next@.len() - a,
        {
            let c = self.nodes[at].next[a];
            let ghost before = found@;
            assert(c == self.nodes@[at as int].next@[a as int]);
            let node = &self.nodes[c];
            proof {
                assert(self.link_ok(c as int));
                assert(self.entries_ok(c as int));
                self.lemma_step_down(at as int, c as int);
            }
            let accepts = node.parameter.is_some() || is_star(node.fragment.as_str()) || str_eq(
                cursor,
                node.fragment.as_str(),
            );
            assert(accepts == fragment_matches(node.fragment@, cursor@));
            if accepts {
                let mut derived = parameters.clone();
                match &node.parameter {
                    Some(parameter) => {
                        derived.insert(parameter.0.clone(), cursor.to_owned());
                    },
                    None => {},
                }
                proof {
                    lemma_captured_prefix(
                        self.path_of(c as int),
                        self.path_of(at as int),
                        request,
                        (i - 1) as nat,
                    );
                    assert(derived@ == captured(self.path_of(c as int), request, i as nat));
                }
                if i + 1 == parts.len() {
                    let shared = Self::build_parameters(&derived);
                    Self::collect(node, &shared, found);
                    proof {
                        self.lemma_collected(c as int, at as int, i as int, path, before, found@, derived@);
                    }
                }
                let ghost middle = found@;
                self.traverse(parts, c, i + 1, derived, found, Ghost(path));
                proof {
                    self.lemma_gathered(
                        c as int,
                        at as int,
                        a as int,
                        i as int,
                        path,
                        parts@.len() as int,
                        base,
                        before,
                        middle,
                        found@,
                    );
                }
            } else {
                proof {
                    self.lemma_skipped(c as int, at as int, i as int, path);
                }
            }
            a = a + 1;
        }
        proof {
            assert forall|stamp: int|
                0 <= stamp < self.registered@.len() && #[trigger] self.wanted(stamp, request)
                    && self.below(self.home(stamp), at as int, i as int) implies exists|x: int|
                base <= x < found@.len() && (#[trigger] found@[x]).0.0 == stamp by {
                self.lemma_branch_is_child(self.home(stamp), at as int, i as int);
                let b = choose|b: int|
                    0 <= b < self.nodes@[at as int].next@.len() && self.nodes@[at as int].next@[b]
                        == self.branch(self.home(stamp), i as int);
                assert(self.branch(self.home(stamp), i as int) == self.nodes@[at as int].next@[b]);
            }
        }
    }

    /// A child's line is its parent's line with the child at the end, so
    /// its path is the parent's path with its own fragment at the end.
    proof fn lemma_step_down(&self, at: int, c: int)
        requires
            self.wf(),
            0 <= at < self.nodes@.len(),
            0 <= c < self.nodes@.len(),
            self.nodes@[c].parent == Some(at as usize),
        ensures
            self.lines@[c] == self.lines@[at].push(c),
            self.lines@[at].last() == at,
            self.path_of(c) == self.path_of(at).push(self.nodes@[c].fragment@),
            parameter_view(self.nodes@[c].parameter) == parameter_of(self.nodes@[c].fragment@),
    {
        assert(self.link_ok(c));
        assert(self.link_ok(at));
        assert(self.path_of(c) =~= self.path_of(at).push(self.nodes@[c].fragment@));
    }

    /// A node below `at` is reached through one of the children of `at`.
    proof fn lemma_branch_is_child(&self, d: int, at: int, i: int)
        requires
            self.wf(),
            0 <= at < self.nodes@.len(),
            self.lines@[at].len() == i,
            i >= 1,
            self.below(d, at, i),
        ensures
            exists|b: int|
                0 <= b < self.nodes@[at].next@.len() && self.nodes@[at].next@[b] == self.branch(d, i),
    {
        let c = self.lines@[d][i];
        assert(self.link_ok(d));
        assert(0 <= c <= d);
        assert(self.lines@[c] == self.lines@[d].take(i + 1));
        assert(self.link_ok(c));
        assert(self.link_ok(0));
        assert(c != 0);
        let p = self.nodes@[c].parent->0 as int;
        assert(self.link_ok(p));
        assert(self.lines@[p] =~= self.lines@[d].take(i + 1).drop_last());
        assert(self.lines@[p].last() == self.lines@[d][i - 1]);
    }

    /// Nothing that is wanted lies behind a child whose fragment refuses
    /// the cursor.
    proof fn lemma_skipped(&self, c: int, at: int, i: int, path: Seq<char>)
        requires
            self.wf(),
            0 <= c < self.nodes@.len(),
            1 <= i <= fragments(path).len(),
            !fragment_matches(self.nodes@[c].fragment@, fragments(path)[i - 1]),
        ensures
            forall|stamp: int|
                0 <= stamp < self.registered@.len() && #[trigger] self.wanted(stamp, fragments(path))
                    && self.below(self.home(stamp), at, i) ==> self.branch(self.home(stamp), i) != c,
    {
        assert forall|stamp: int|
            0 <= stamp < self.registered@.len() && #[trigger] self.wanted(stamp, fragments(path))
                && self.below(self.home(stamp), at, i) implies self.branch(self.home(stamp), i)
            != c by {
            let d = self.home(stamp);
            if self.branch(d, i) == c {
                assert(self.path_of(d)[i - 1] == self.nodes@[c].fragment@);
            }
        }
    }

    /// What `collect` appended for node `c`, the child of `at` that the
    /// last fragment leads to, are the registrations stored at `c`.
    proof fn lemma_collected(
        &self,
        c: int,
        at: int,
        i: int,
        path: Seq<char>,
        before: Seq<Found<F>>,
        after: Seq<Found<F>>,
        derived: Map<Seq<char>, Seq<char>>,
    )
        requires
            self.wf(),
            0 <= at < self.nodes@.len(),
            0 <= c < self.nodes@.len(),
            self.nodes@[c].parent == Some(at as usize),
            i >= 1,
            self.lines@[at].len() == i,
            fragments(path).len() == i,
            forall|t: int|
                0 <= t < i - 1 ==> fragment_matches(#[trigger] self.path_of(at)[t], fragments(path)[t]),
            fragment_matches(self.nodes@[c].fragment@, fragments(path)[i - 1]),
            derived == captured(self.path_of(c), fragments(path), i as nat),
            after.len() == before.len() + self.nodes@[c].handlers@.len(),
            forall|x: int|
                before.len() <= x < after.len() ==> (#[trigger] after[x]).0
                    == self.nodes@[c].handlers@[x - before.len()] && after[x].1@ == derived,
        ensures
            forall|x: int|
                before.len() <= x < after.len() ==> self.found_ok(#[trigger] after[x], path)
                    && self.below(self.home(after[x].0.0 as int), at, i) && self.home(
                    after[x].0.0 as int,
                ) == c,
            forall|x: int, y: int|
                before.len() <= x < y < after.len() ==> (#[trigger] after[x]).0.0 != (#[trigger] after[y]).0.0,
            forall|stamp: int|
                0 <= stamp < self.registered@.len() && self.home(stamp) == c ==> exists|x: int|
                    before.len() <= x < after.len() && (#[trigger] after[x]).0.0 == stamp,
            fragments_match(self.path_of(c), fragments(path)),
    {
        self.lemma_step_down(at, c);
        assert(self.entries_ok(c));
        let way = self.path_of(c);
        assert(way.len() == i);
        assert forall|t: int| 0 <= t < way.len() implies fragment_matches(
            #[trigger] way[t],
            fragments(path)[t],
        ) by {
            if t < i - 1 {
                assert(way[t] == self.path_of(at)[t]);
            }
        }
        assert forall|x: int| before.len() <= x < after.len() implies self.found_ok(
            #[trigger] after[x],
            path,
        ) && self.below(self.home(after[x].0.0 as int), at, i) && self.home(after[x].0.0 as int)
            == c by {
            let j = x - before.len();
            assert(self.entry_ok(self.nodes@[c].handlers@[j], c, j));
        }
        assert forall|x: int, y: int| before.len() <= x < y < after.len() implies (#[trigger] after[x]).0.0
            != (#[trigger] after[y]).0.0 by {
            let j = x - before.len();
            let k = y - before.len();
            assert(self.entry_ok(self.nodes@[c].handlers@[j], c, j));
            assert(self.entry_ok(self.nodes@[c].handlers@[k], c, k));
        }
        assert forall|stamp: int|
            0 <= stamp < self.registered@.len() && self.home(stamp) == c implies exists|x: int|
            before.len() <= x < after.len() && (#[trigger] after[x]).0.0 == stamp by {
            assert(self.stamp_ok(stamp));
            let j = self.slots@[stamp].1;
            assert(after[before.len() + j].0 == self.nodes@[c].handlers@[j]);
            assert(after[before.len() + j].0.0 == stamp);
        }
    }

    /// After child `c` of `at`, the `a`-th, has been dealt with, the walk's
    /// invariant holds for the children up to and including it.
    proof fn lemma_gathered(
        &self,
        c: int,
        at: int,
        a: int,
        i: int,
        path: Seq<char>,
        depth: int,
        base: int,
        before: Seq<Found<F>>,
        middle: Seq<Found<F>>,
        after: Seq<Found<F>>,
    )
        requires
            self.wf(),
            0 <= at < self.nodes@.len(),
            0 <= a < self.nodes@[at].next@.len(),
            c == self.nodes@[at].next@[a],
            1 <= i < depth,
            depth == fragments(path).len() + 1,
            self.lines@[at].len() == i,
            0 <= base <= before.len() <= middle.len() <= after.len(),
            forall|x: int| 0 <= x < before.len() ==> middle[x] == before[x],
            forall|x: int| 0 <= x < middle.len() ==> after[x] == middle[x],
            // what stood before
            forall|x: int|
                base <= x < before.len() ==> self.found_ok(#[trigger] before[x], path) && self.below(
                    self.home(before[x].0.0 as int),
                    at,
                    i,
                ),
            forall|x: int, b: int|
                base <= x < before.len() && a <= b < self.nodes@[at].next@.len() ==> self.branch(
                    self.home((#[trigger] before[x]).0.0 as int),
                    i,
                ) != #[trigger] self.nodes@[at].next@[b],
            forall|x: int, y: int|
                base <= x < y < before.len() ==> (#[trigger] before[x]).0.0 != (#[trigger] before[y]).0.0,
            // what the node itself gave, where the path ends at it
            i + 1 == depth ==> {
                &&& forall|x: int|
                    before.len() <= x < middle.len() ==> self.found_ok(#[trigger] middle[x], path)
                        && self.below(self.home(middle[x].0.0 as int), at, i) && self.home(
                        middle[x].0.0 as int,
                    ) == c
                &&& forall|x: int, y: int|
                    before.len() <= x < y < middle.len() ==> (#[trigger] middle[x]).0.0
                        != (#[trigger] middle[y]).0.0
                &&& forall|stamp: int|
                    0 <= stamp < self.registered@.len() && self.home(stamp) == c ==> exists|x: int|
                        before.len() <= x < middle.len() && (#[trigger] middle[x]).0.0 == stamp
            },
            i + 1 < depth ==> middle.len() == before.len(),
            // what the walk below it gave
            forall|x: int|
                middle.len() <= x < after.len() ==> self.found_ok(#[trigger] after[x], path)
                    && self.below(self.home(after[x].0.0 as int), c, i + 1),
            forall|x: int, y: int|
                middle.len() <= x < y < after.len() ==> (#[trigger] after[x]).0.0 != (#[trigger] after[y]).0.0,
            forall|stamp: int|
                0 <= stamp < self.registered@.len() && #[trigger] self.wanted(stamp, fragments(path))
                    && self.below(self.home(stamp), c, i + 1) ==> exists|x: int|
                    middle.len() <= x < after.len() && (#[trigger] after[x]).0.0 == stamp,
            i + 1 == depth ==> after.len() == middle.len(),
        ensures
            forall|x: int|
                base <= x < after.len() ==> self.found_ok(#[trigger] after[x], path) && self.below(
                    self.home(after[x].0.0 as int),
                    at,
                    i,
                ),
            forall|x: int, b: int|
                base <= x < after.len() && a + 1 <= b < self.nodes@[at].next@.len() ==> self.branch(
                    self.home((#[trigger] after[x]).0.0 as int),
                    i,
                ) != #[trigger] self.nodes@[at].next@[b],
            forall|x: int, y: int|
                base <= x < y < after.len() ==> (#[trigger] after[x]).0.0 != (#[trigger] after[y]).0.0,
            forall|stamp: int|
                0 <= stamp < self.registered@.len() && #[trigger] self.wanted(stamp, fragments(path))
                    && self.below(self.home(stamp), at, i) && self.branch(self.home(stamp), i) == c
                    ==> exists|x: int|
                    base <= x < after.len() && (#[trigger] after[x]).0.0 == stamp,
    {
        assert(self.children_ok(at));
        assert(self.nodes@[c].parent == Some(at as usize));
        self.lemma_step_down(at, c);
        // Every new entry is stored below `at`, behind the branch `c`.
        assert forall|x: int| before.len() <= x < after.len() implies self.found_ok(
            #[trigger] after[x],
            path,
        ) && self.below(self.home(after[x].0.0 as int), at, i) && self.branch(
            self.home(after[x].0.0 as int),
            i,
        ) == c by {
            let d = self.home(after[x].0.0 as int);
            if x < middle.len() {
                assert(after[x] == middle[x]);
                assert(self.home(middle[x].0.0 as int) == c);
            } else {
                assert(self.below(d, c, i + 1));
                assert(self.link_ok(d));
                assert(self.lines@[self.lines@[d][i]] == self.lines@[d].take(i + 1));
                assert(self.lines@[d].take(i + 1)[i - 1] == self.lines@[d][i - 1]);
            }
        }
        assert forall|x: int| base <= x < after.len() implies self.found_ok(
            #[trigger] after[x],
            path,
        ) && self.below(self.home(after[x].0.0 as int), at, i) by {
            if x < before.len() {
                assert(after[x] == middle[x]);
                assert(middle[x] == before[x]);
            }
        }
        assert forall|x: int, b: int|
            base <= x < after.len() && a + 1 <= b < self.nodes@[at].next@.len() implies self.branch(
            self.home((#[trigger] after[x]).0.0 as int),
            i,
        ) != #[trigger] self.nodes@[at].next@[b] by {
            if x < before.len() {
                assert(after[x] == middle[x]);
                assert(middle[x] == before[x]);
            } else {
                assert(self.nodes@[self.nodes@[at].next@[a] as int].fragment@
                    != self.nodes@[self.nodes@[at].next@[b] as int].fragment@);
            }
        }
        assert forall|x: int, y: int| base <= x < y < after.len() implies (#[trigger] after[x]).0.0
            != (#[trigger] after[y]).0.0 by {
            if y < before.len() {
                assert(after[x] == middle[x]);
                assert(middle[x] == before[x]);
                assert(after[y] == middle[y]);
                assert(middle[y] == before[y]);
            } else if x < before.len() {
                assert(after[x] == middle[x]);
                assert(middle[x] == before[x]);
                assert(self.branch(self.home(before[x].0.0 as int), i) != self.nodes@[at].next@[a]);
            } else if y < middle.len() {
                assert(after[x] == middle[x]);
                assert(after[y] == middle[y]);
            } else if x < middle.len() {
                // the two would stand both in the last column and deeper
                assert(i + 1 == depth);
            } else {
            }
        }
        assert forall|stamp: int|
            0 <= stamp < self.registered@.len() && #[trigger] self.wanted(stamp, fragments(path))
                && self.below(self.home(stamp), at, i) && self.branch(self.home(stamp), i)
                == c implies exists|x: int|
            base <= x < after.len() && (#[trigger] after[x]).0.0 == stamp by {
            let d = self.home(stamp);
            assert(self.path_of(d).len() == self.lines@[d].len() - 1);
            assert(self.link_ok(d));
            if i + 1 == depth {
                assert(self.lines@[d].last() == d);
                assert(d == c);
                let x = choose|x: int|
                    before.len() <= x < middle.len() && (#[trigger] middle[x]).0.0 == stamp;
                assert(after[x] == middle[x]);
            } else {
                assert(self.below(d, c, i + 1));
                let x = choose|x: int|
                    middle.len() <= x < after.len() && (#[trigger] after[x]).0.0 == stamp;
                assert(after[x].0.0 == stamp);
            }
        }
    }

    /// Puts what was found into dispatch order: by phase, and within a phase
    /// by stamp. `origin` tells for each place of the result where its entry
    /// stood in `found`, `place` for each entry of `found` where it went.
    fn sort(found: Vec<Found<F>>) -> (result: (Vec<Found<F>>, Ghost<Seq<int>>, Ghost<Seq<int>>))
        requires
            forall|x: int, y: int|
                0 <= x < y < found@.len() ==> (#[trigger] found@[x]).0.0 != (#[trigger] found@[y]).0.0,
        ensures
            result.0@.len() == found@.len(),
            result.1@.len() == found@.len(),
            result.2@.len() == found@.len(),
            forall|x: int, y: int|
                0 <= x < y < result.0@.len() ==> precedes(
                    (#[trigger] result.0@[x]).0,
                    (#[trigger] result.0@[y]).0,
                ),
            forall|x: int|
                0 <= x < result.0@.len() ==> 0 <= #[trigger] result.1@[x] < found@.len()
                    && result.0@[x] == found@[result.1@[x]],
            forall|y: int|
                0 <= y < found@.len() ==> 0 <= #[trigger] result.2@[y] < result.0@.len()
                    && result.0@[result.2@[y]] == found@[y],
    {
        let ghost all = found@;
        let mut rest = found;
        let mut sorted: Vec<Found<F>> = Vec::new();
        let ghost mut origin: Seq<int> = Seq::empty();
        let ghost mut place: Seq<int> = Seq::new(all.len(), |y: int| 0int);
        while rest.len() > 0
            invariant
                rest@.len() <= all.len(),
                forall|y: int| 0 <= y < rest@.len() ==> rest@[y] == all[y],
                forall|x: int, y: int|
                    0 <= x < y < all.len() ==> (#[trigger] all[x]).0.0 != (#[trigger] all[y]).0.0,
                sorted@.len() + rest@.len() == all.len(),
                origin.len() == sorted@.len(),
                place.len() == all.len(),
                forall|x: int, y: int|
                    0 <= x < y < sorted@.len() ==> precedes(
                        (#[trigger] sorted@[x]).0,
                        (#[trigger] sorted@[y]).0,
                    ),
                forall|x: int|
                    0 <= x < sorted@.len() ==> rest@.len() <= #[trigger] origin[x] < all.len()
                        && sorted@[x] == all[origin[x]],
                forall|y: int|
                    rest@.len() <= y < all.len() ==> 0 <= #[trigger] place[y] < sorted@.len()
                        && sorted@[place[y]] == all[y],
            decreases rest@.len(),
        {
            let ghost here = rest@.len() - 1;
            let ghost earlier = sorted@;
            let ghost earlier_origin = origin;
            let ghost earlier_place = place;
            let entry = rest.pop().unwrap();
            assert(entry == all[here]);
            let mut p: usize = 0;
            while p < sorted.len() && Self::goes_first(&sorted[p].0, &entry.0)
                invariant
                    p <= sorted@.len(),
                    forall|x: int| 0 <= x < p ==> precedes((#[trigger] sorted@[x]).0, entry.0),
                decreases sorted@.len() - p,
            {
                p = p + 1;
            }
            proof {
                // The entry's stamp is new, so whatever does not go before it goes after it.
                if p < sorted@.len() {
                    let y = origin[p as int];
                    assert(sorted@[p as int] == all[y]);
                    assert(all[here].0.0 != all[y].0.0);
                    assert(precedes(entry.0, sorted@[p as int].0));
                    assert forall|x: int| p < x < sorted@.len() implies precedes(
                        entry.0,
                        (#[trigger] sorted@[x]).0,
                    ) by {
                        assert(precedes(sorted@[p as int].0, sorted@[x].0));
                    }
                }
            }
            sorted.insert(p, entry);
            proof {
                origin = earlier_origin.insert(p as int, here);
                place = Seq::new(
                    all.len(),
                    |y: int|
                        if y == here {
                            p as int
                        } else if earlier_place[y] >= p {
                            earlier_place[y] + 1
                        } else {
                            earlier_place[y]
                        },
                );
                Self::lemma_inserted(earlier, sorted@, p as int, entry);
                assert forall|x: int| 0 <= x < sorted@.len() implies rest@.len() <= #[trigger] origin[x]
                    < all.len() && sorted@[x] == all[origin[x]] by {
                    if x < p {
                        assert(origin[x] == earlier_origin[x]);
                    } else if x > p {
                        assert(origin[x] == earlier_origin[x - 1]);
                    }
                }
                assert forall|y: int| rest@.len() <= y < all.len() implies 0 <= #[trigger] place[y]
                    < sorted@.len() && sorted@[place[y]] == all[y] by {
                    if y != here {
                        assert(0 <= earlier_place[y] < earlier.len());
                    }
                }
            }
        }
        (sorted, Ghost(origin), Ghost(place))
    }

    /// An entry put between what goes before it and what goes after it
    /// leaves the sequence in dispatch order.
    proof fn lemma_inserted(earlier: Seq<Found<F>>, now: Seq<Found<F>>, p: int, entry: Found<F>)
        requires
            0 <= p <= earlier.len(),
            now == earlier.insert(p, entry),
            forall|x: int, y: int|
                0 <= x < y < earlier.len() ==> precedes(
                    (#[trigger] earlier[x]).0,
                    (#[trigger] earlier[y]).0,
                ),
            forall|x: int| 0 <= x < p ==> precedes((#[trigger] earlier[x]).0, entry.0),
            forall|x: int| p <= x < earlier.len() ==> precedes(entry.0, (#[trigger] earlier[x]).0),
        ensures
            forall|x: int, y: int|
                0 <= x < y < now.len() ==> precedes((#[trigger] now[x]).0, (#[trigger] now[y]).0),
            forall|x: int| 0 <= x < p ==> now[x] == earlier[x],
            now[p] == entry,
            forall|x: int| p < x < now.len() ==> now[x] == earlier[x - 1],
    {
        assert forall|x: int, y: int| 0 <= x < y < now.len() implies precedes(
            (#[trigger] now[x]).0,
            (#[trigger] now[y]).0,
        ) by {
            if x < p {
                assert(now[x] == earlier[x]);
            } else if x > p {
                assert(now[x] == earlier[x - 1]);
            }
            if y < p {
                assert(now[y] == earlier[y]);
            } else if y > p {
                assert(now[y] == earlier[y - 1]);
            }
        }
    }

    /// The match list of a request: every registration whose pattern matches
    /// `path` and whose method serves `method`, with what its pattern
    /// captured, in dispatch order.
    ///
    /// The catch-all handlers match every path. The list is ordered by phase
    /// (`Before`, `Main`, `After`) and, within a phase, by registration.
    pub fn handlers(&self, method: &Method, path: &str) -> (matches: Vec<
        (SharedHandler<F>, SharedParams),
    >)
        requires
            self.wf(),
        ensures
            matches@.len() == route(self@, *method, path@).len(),
            forall|x: int|
                0 <= x < matches@.len() ==> *(#[trigger] matches@[x]).0 == route(
                    self@,
                    *method,
                    path@,
                )[x].0 && matches@[x].1@ == route(self@, *method, path@)[x].1,
    {
        let parts = split_path(path);
        let ghost request = fragments(path@);
        proof {
            assert(parts.deep_view().len() == parts@.len());
            assert forall|u: int| 1 <= u < parts@.len() implies (#[trigger] parts@[u])@ == request[u
                - 1] by {
                assert(parts.deep_view()[u] == parts@[u]@);
            }
        }
        let mut found: Vec<Found<F>> = Vec::new();
        let empty = new_shared_params();
        Self::collect(&self.all, &empty, &mut found);
        let ghost bucket = found@;
        if parts.len() == 1 {
            Self::collect(&self.nodes[0], &empty, &mut found);
        } else {
            proof {
                assert(self.link_ok(0));
            }
            self.traverse(&parts, 0, 1, new_params(), &mut found, Ghost(path@));
        }
        proof {
            self.lemma_found(path@, bucket, found@);
        }
        let ghost all = found@;
        let (sorted, Ghost(origin), Ghost(place)) = Self::sort(found);
        proof {
            assert forall|w: int| 0 <= w < sorted@.len() implies self.found_ok(
                #[trigger] sorted@[w],
                path@,
            ) by {
                assert(sorted@[w] == all[origin[w]]);
            }
        }
        let mut matches: Vec<(SharedHandler<F>, SharedParams)> = Vec::new();
        let ghost mut picked: Seq<int> = Seq::empty();
        let ghost mut from: Seq<int> = Seq::empty();
        let mut x: usize = 0;
        while x < sorted.len()
            invariant
                self.wf(),
                x <= sorted@.len(),
                forall|w: int| 0 <= w < sorted@.len() ==> self.found_ok(#[trigger] sorted@[w], path@),
                forall|v: int, w: int|
                    0 <= v < w < sorted@.len() ==> precedes(
                        (#[trigger] sorted@[v]).0,
                        (#[trigger] sorted@[w]).0,
                    ),
                matches@.len() == picked.len(),
                from.len() == picked.len(),
                forall|y: int|
                    0 <= y < picked.len() ==> 0 <= #[trigger] from[y] < x && picked[y] == sorted@[from[y]].0.0,
                forall|y: int, z: int| 0 <= y < z < from.len() ==> from[y] < from[z],
                forall|y: int|
                    0 <= y < picked.len() ==> {
                        let stamp = #[trigger] picked[y];
                        &&& 0 <= stamp < self@.len()
                        &&& serves(self@[stamp], *method, path@)
                        &&& *matches@[y].0 == self@[stamp]
                        &&& matches@[y].1@ == captures(self@[stamp].path@, path@)
                    },
                forall|w: int|
                    0 <= w < x && method_serves(self@[(#[trigger] sorted@[w]).0.0 as int].method, *method)
                        ==> picked.contains(sorted@[w].0.0 as int),
            decreases sorted@.len() - x,
        {
            let entry = &sorted[x];
            assert(self.found_ok(*entry, path@));
            let registered = entry.0.1.method;
            if registered == Method::All || *method == Method::All || registered == *method {
                matches.push((share(&entry.0.1), share(&entry.1)));
                proof {
                    let ghost stamp = entry.0.0 as int;
                    let ghost before = picked;
                    picked = picked.push(stamp);
                    from = from.push(x as int);
                    assert forall|w: int|
                        0 <= w < x + 1 && method_serves(
                            self@[(#[trigger] sorted@[w]).0.0 as int].method,
                            *method,
                        ) implies picked.contains(sorted@[w].0.0 as int) by {
                        if w < x {
                            assert(before.contains(sorted@[w].0.0 as int));
                            let y = choose|y: int|
                                0 <= y < before.len() && before[y] == sorted@[w].0.0 as int;
                            assert(picked[y] == sorted@[w].0.0 as int);
                        } else {
                            assert(picked[picked.len() - 1] == stamp);
                        }
                    }
                }
            }
            x = x + 1;
        }
        proof {
            let plan = plan(self@, *method, path@);
            lemma_plan(self@, *method, path@);
            assert(in_order(self@, picked)) by {
                assert forall|y: int, z: int| 0 <= y < z < picked.len() implies ahead(
                    self@,
                    #[trigger] picked[y],
                    #[trigger] picked[z],
                ) by {
                    assert(from[y] < from[z]);
                    assert(precedes(sorted@[from[y]].0, sorted@[from[z]].0));
                    assert(self.found_ok(sorted@[from[y]], path@));
                    assert(self.found_ok(sorted@[from[z]], path@));
                }
            }
            assert forall|stamp: int| picked.contains(stamp) <==> plan.contains(stamp) by {
                if picked.contains(stamp) {
                    let y = choose|y: int| 0 <= y < picked.len() && picked[y] == stamp;
                    assert(serves(self@[picked[y]], *method, path@));
                }
                if plan.contains(stamp) {
                    assert(pattern_matches(self@[stamp].path@, path@));
                    let v = choose|v: int| 0 <= v < all.len() && (#[trigger] all[v]).0.0 == stamp;
                    let w = place[v];
                    assert(sorted@[w] == all[v]);
                    assert(self.found_ok(sorted@[w], path@));
                    assert(picked.contains(sorted@[w].0.0 as int));
                }
            }
            lemma_one_order(self@, picked, plan);
        }
        matches
    }

    /// What was gathered for a request are the registrations whose patterns
    /// match its path, each once.
    proof fn lemma_found(&self, path: Seq<char>, bucket: Seq<Found<F>>, found: Seq<Found<F>>)
        requires
            self.wf(),
            bucket.len() == self.all.handlers@.len(),
            forall|x: int|
                0 <= x < bucket.len() ==> (#[trigger] bucket[x]).0 == self.all.handlers@[x]
                    && bucket[x].1@ == Map::<Seq<char>, Seq<char>>::empty(),
            found.len() >= bucket.len(),
            forall|x: int| 0 <= x < bucket.len() ==> found[x] == bucket[x],
            fragments(path).len() == 0 ==> {
                &&& found.len() == bucket.len() + self.nodes@[0].handlers@.len()
                &&& forall|x: int|
                    bucket.len() <= x < found.len() ==> (#[trigger] found[x]).0
                        == self.nodes@[0].handlers@[x - bucket.len()] && found[x].1@ == Map::<
                        Seq<char>,
                        Seq<char>,
                    >::empty()
            },
            fragments(path).len() > 0 ==> {
                &&& forall|x: int|
                    bucket.len() <= x < found.len() ==> self.found_ok(#[trigger] found[x], path)
                        && self.below(self.home(found[x].0.0 as int), 0, 1)
                &&& forall|x: int, y: int|
                    bucket.len() <= x < y < found.len() ==> (#[trigger] found[x]).0.0
                        != (#[trigger] found[y]).0.0
                &&& forall|stamp: int|
                    0 <= stamp < self.registered@.len() && #[trigger] self.wanted(stamp, fragments(path))
                        && self.below(self.home(stamp), 0, 1) ==> exists|x: int|
                        bucket.len() <= x < found.len() && (#[trigger] found[x]).0.0 == stamp
            },
        ensures
            forall|x: int| 0 <= x < found.len() ==> self.found_ok(#[trigger] found[x], path),
            forall|x: int, y: int|
                0 <= x < y < found.len() ==> (#[trigger] found[x]).0.0 != (#[trigger] found[y]).0.0,
            forall|stamp: int|
                0 <= stamp < self@.len() && pattern_matches(self@[stamp].path@, path) ==> exists|x: int|
                    0 <= x < found.len() && (#[trigger] found[x]).0.0 == stamp,
    {
        let request = fragments(path);
        assert(self.link_ok(0));
        assert(self.entries_ok(0));
        assert(self.path_of(0) =~= Seq::<Seq<char>>::empty());
        // Where each entry is stored: the bucket first, the trie after it.
        assert forall|x: int| 0 <= x < found.len() implies self.found_ok(#[trigger] found[x], path) && (
        x < bucket.len() ==> self.slots@[found[x].0.0 as int] == (-1int, x)) && (x >= bucket.len()
            ==> self.slots@[found[x].0.0 as int].0 >= 0 && (request.len() == 0
            ==> self.slots@[found[x].0.0 as int] == (0int, x - bucket.len()))) by {
            if x < bucket.len() {
                assert(found[x] == bucket[x]);
                assert(bucket[x].0 == self.all.handlers@[x]);
                assert(self.entry_ok(self.all.handlers@[x], -1, x));
            } else if request.len() == 0 {
                let j = x - bucket.len();
                assert(self.entry_ok(self.nodes@[0].handlers@[j], 0, j));
            } else {
            }
        }
        assert forall|stamp: int|
            0 <= stamp < self@.len() && pattern_matches(self@[stamp].path@, path) implies exists|
            x: int,
        |
            0 <= x < found.len() && (#[trigger] found[x]).0.0 == stamp by {
            assert(self.stamp_ok(stamp));
            let (d, j) = self.slots@[stamp];
            if d == -1 {
                assert(found[j] == bucket[j]);
                assert(bucket[j].0 == self.all.handlers@[j]);
            } else {
                assert(self.entries_ok(d));
                assert(self.entry_ok(self.nodes@[d].handlers@[j], d, j));
                assert(self.link_ok(d));
                assert(self.path_of(d).len() == self.lines@[d].len() - 1);
                if request.len() == 0 {
                    assert(d == 0);
                    assert(found[bucket.len() + j].0 == self.nodes@[0].handlers@[j]);
                    assert(found[bucket.len() + j].0.0 == stamp);
                } else {
                    assert(self.wanted(stamp, request));
                    assert(self.below(self.home(stamp), 0, 1));
                }
            }
        }
    }
}

} // verus!
