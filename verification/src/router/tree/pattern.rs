//! Paths and patterns: how a path falls into fragments, when a pattern
//! matches a path, and what it captures from it.

use vstd::prelude::*;
use crate::request::Method;
use crate::router::handler::{Handler, HookType};
use crate::text::{chars_of, find, lemma_find, lemma_find_bounds, split, str_eq, string_of};
use super::node::parameter_of;
use super::order::{goes_before, rank};

verus! {

/// The text of the wildcard fragment. Alone, it is the catch-all pattern.
pub open spec fn star() -> Seq<char> {
    seq!['*']
}

/// The fragments of a path: the non-empty pieces between its slashes, in
/// order. Leading, trailing and repeated slashes leave no trace.
pub open spec fn fragments(path: Seq<char>) -> Seq<Seq<char>>
    decreases path.len(),
{
    let slash = find(path, '/');
    if 0 <= slash < path.len() {
        let rest = fragments(path.skip(slash + 1));
        if slash > 0 {
            seq![path.take(slash)] + rest
        } else {
            rest
        }
    } else if path.len() > 0 {
        seq![path]
    } else {
        Seq::empty()
    }
}

/// The test that tells the pieces of a split that count from the empty ones.
pub open spec fn non_empty() -> spec_fn(Seq<char>) -> bool {
    |piece: Seq<char>| piece.len() > 0
}

/// The fragments of a path are the non-empty pieces of its split at the
/// slashes.
pub proof fn lemma_fragments_split(path: Seq<char>)
    ensures
        fragments(path) == split(path, '/').filter(non_empty()),
    decreases path.len(),
{
    reveal_with_fuel(Seq::filter, 2);
    let slash = find(path, '/');
    lemma_find_bounds(path, '/');
    if slash < path.len() {
        let head = seq![path.take(slash)];
        let rest = split(path.skip(slash + 1), '/');
        lemma_fragments_split(path.skip(slash + 1));
        Seq::filter_distributes_over_add(head, rest, non_empty());
        assert(head.drop_last() =~= Seq::<Seq<char>>::empty());
        if slash > 0 {
            assert(head.filter(non_empty()) =~= head);
        } else {
            assert(head.filter(non_empty()) =~= Seq::<Seq<char>>::empty());
            assert(Seq::<Seq<char>>::empty() + rest.filter(non_empty()) =~= rest.filter(non_empty()));
        }
    } else {
        let whole = seq![path];
        assert(whole.drop_last() =~= Seq::<Seq<char>>::empty());
        if path.len() > 0 {
            assert(whole.filter(non_empty()) =~= whole);
        } else {
            assert(whole.filter(non_empty()) =~= Seq::<Seq<char>>::empty());
        }
    }
}

/// A path has no fragments exactly when it holds nothing but slashes, as the
/// empty path and `/` do.
pub proof fn lemma_no_fragments(path: Seq<char>)
    ensures
        fragments(path).len() == 0 <==> (forall|i: int| 0 <= i < path.len() ==> path[i] == '/'),
    decreases path.len(),
{
    let slash = find(path, '/');
    lemma_find_bounds(path, '/');
    if slash < path.len() {
        let rest = path.skip(slash + 1);
        lemma_no_fragments(rest);
        if slash > 0 {
            assert(path[0] != '/');
        } else {
            if forall|i: int| 0 <= i < rest.len() ==> rest[i] == '/' {
                assert forall|i: int| 0 <= i < path.len() implies path[i] == '/' by {
                    if i > 0 {
                        assert(rest[i - 1] == path[i]);
                    }
                }
            } else {
                let i = choose|i: int| 0 <= i < rest.len() && rest[i] != '/';
                assert(path[i + 1] != '/');
            }
        }
    } else if path.len() > 0 {
        assert(path[0] != '/');
    }
}

/// Whether a pattern fragment accepts the request fragment `cursor`: a
/// parameter and the wildcard accept anything, a literal only itself.
pub open spec fn fragment_matches(pattern: Seq<char>, cursor: Seq<char>) -> bool {
    parameter_of(pattern) is Some || pattern == star() || pattern == cursor
}

/// Whether the pattern fragments accept the request fragments one for one.
pub open spec fn fragments_match(pattern: Seq<Seq<char>>, request: Seq<Seq<char>>) -> bool {
    &&& pattern.len() == request.len()
    &&& forall|i: int| 0 <= i < pattern.len() ==> fragment_matches(#[trigger] pattern[i], request[i])
}

/// Whether a pattern matches a request path. The catch-all matches every
/// path; any other pattern must match fragment by fragment.
pub open spec fn pattern_matches(pattern: Seq<char>, path: Seq<char>) -> bool {
    pattern == star() || fragments_match(fragments(pattern), fragments(path))
}

/// What the first `n` pattern fragments capture from the request fragments:
/// each parameter binds its name to the fragment at its place, a later
/// binding of a name replacing an earlier one.
pub open spec fn captured(pattern: Seq<Seq<char>>, request: Seq<Seq<char>>, n: nat) -> Map<
    Seq<char>,
    Seq<char>,
>
    decreases n,
{
    if n == 0 {
        Map::empty()
    } else {
        let before = captured(pattern, request, (n - 1) as nat);
        match parameter_of(pattern[n - 1]) {
            Some((name, _)) => before.insert(name, request[n - 1]),
            None => before,
        }
    }
}

/// What is captured is bound under the names of the parameters, to the
/// request fragments at their places: a name in the map is the name of a
/// parameter among the first `n` pattern fragments, and it is bound to the
/// request fragment that stands where that parameter does. A parameter's
/// argument plays no part.
pub proof fn lemma_captured_names(
    pattern: Seq<Seq<char>>,
    request: Seq<Seq<char>>,
    n: nat,
    key: Seq<char>,
)
    requires
        captured(pattern, request, n).contains_key(key),
    ensures
        exists|i: int|
            0 <= i < n && (#[trigger] parameter_of(pattern[i])) is Some && (parameter_of(
                pattern[i],
            )->0).0 == key && captured(pattern, request, n)[key] == request[i],
    decreases n,
{
    if n > 0 {
        let before = captured(pattern, request, (n - 1) as nat);
        match parameter_of(pattern[n - 1]) {
            Some((name, _)) => {
                if name == key {
                    assert(parameter_of(pattern[n - 1]) is Some);
                } else {
                    assert(before.contains_key(key));
                    lemma_captured_names(pattern, request, (n - 1) as nat, key);
                    let i = choose|i: int|
                        0 <= i < n - 1 && (#[trigger] parameter_of(pattern[i])) is Some && (parameter_of(
                            pattern[i],
                        )->0).0 == key && before[key] == request[i];
                    assert(parameter_of(pattern[i]) is Some);
                }
            },
            None => {
                lemma_captured_names(pattern, request, (n - 1) as nat, key);
                let i = choose|i: int|
                    0 <= i < n - 1 && (#[trigger] parameter_of(pattern[i])) is Some && (parameter_of(
                        pattern[i],
                    )->0).0 == key && before[key] == request[i];
                assert(parameter_of(pattern[i]) is Some);
            },
        }
    }
}

/// What a pattern captures from a path that it matches. The catch-all
/// captures nothing.
pub open spec fn captures(pattern: Seq<char>, path: Seq<char>) -> Map<Seq<char>, Seq<char>> {
    if pattern == star() {
        Map::empty()
    } else {
        captured(fragments(pattern), fragments(path), fragments(pattern).len())
    }
}

/// Whether a handler registered for `registered` serves a request of
/// `requested`: the methods are the same, or one of the two is `All`.
pub open spec fn method_serves(registered: Method, requested: Method) -> bool {
    registered == Method::All || requested == Method::All || registered == requested
}

/// Whether a registration serves a request.
pub open spec fn serves<F>(handler: Handler<F>, method: Method, path: Seq<char>) -> bool {
    method_serves(handler.method, method) && pattern_matches(handler.path@, path)
}

/// The stamps of the registrations of phase `hook` that serve the request,
/// ascending. A registration's stamp is its place in `registered`.
pub open spec fn picks<F>(
    registered: Seq<Handler<F>>,
    method: Method,
    path: Seq<char>,
    hook: HookType,
) -> Seq<int>
    decreases registered.len(),
{
    if registered.len() == 0 {
        Seq::empty()
    } else {
        let earlier = picks(registered.drop_last(), method, path, hook);
        let last = registered.last();
        if last.hook_type == hook && serves(last, method, path) {
            earlier.push(registered.len() - 1)
        } else {
            earlier
        }
    }
}

/// The stamps of the registrations that serve the request, in dispatch
/// order: the `Before` handlers, then the `Main` ones, then the `After`
/// ones, each phase in the order of registration.
pub open spec fn plan<F>(registered: Seq<Handler<F>>, method: Method, path: Seq<char>) -> Seq<int> {
    picks(registered, method, path, HookType::Before) + picks(
        registered,
        method,
        path,
        HookType::Main,
    ) + picks(registered, method, path, HookType::After)
}

/// The match list of a request: the serving registrations in dispatch order,
/// each with what its pattern captures from the path.
pub open spec fn route<F>(registered: Seq<Handler<F>>, method: Method, path: Seq<char>) -> Seq<
    (Handler<F>, Map<Seq<char>, Seq<char>>),
> {
    plan(registered, method, path).map_values(
        |stamp: int| (registered[stamp], captures(registered[stamp].path@, path)),
    )
}

/// Whether the registration stamped `a` is dispatched before the one
/// stamped `b`.
pub open spec fn ahead<F>(registered: Seq<Handler<F>>, a: int, b: int) -> bool {
    goes_before(registered[a].hook_type, a, registered[b].hook_type, b)
}

/// Whether the stamps in `stamps` stand in dispatch order.
pub open spec fn in_order<F>(registered: Seq<Handler<F>>, stamps: Seq<int>) -> bool {
    forall|x: int, y: int|
        0 <= x < y < stamps.len() ==> ahead(registered, #[trigger] stamps[x], #[trigger] stamps[y])
}

/// `picks` holds exactly the stamps of the serving registrations of its
/// phase, smaller stamps first.
pub proof fn lemma_picks<F>(registered: Seq<Handler<F>>, method: Method, path: Seq<char>, hook: HookType)
    ensures
        forall|x: int|
            0 <= x < picks(registered, method, path, hook).len() ==> {
                let stamp = #[trigger] picks(registered, method, path, hook)[x];
                &&& 0 <= stamp < registered.len()
                &&& registered[stamp].hook_type == hook
                &&& serves(registered[stamp], method, path)
            },
        forall|x: int, y: int|
            0 <= x < y < picks(registered, method, path, hook).len() ==> picks(
                registered,
                method,
                path,
                hook,
            )[x] < picks(registered, method, path, hook)[y],
        forall|stamp: int|
            0 <= stamp < registered.len() && registered[stamp].hook_type == hook && serves(
                registered[stamp],
                method,
                path,
            ) ==> picks(registered, method, path, hook).contains(stamp),
    decreases registered.len(),
{
    if registered.len() > 0 {
        let init = registered.drop_last();
        let earlier = picks(init, method, path, hook);
        let all = picks(registered, method, path, hook);
        lemma_picks(init, method, path, hook);
        assert forall|x: int| 0 <= x < all.len() implies {
            let stamp = #[trigger] all[x];
            &&& 0 <= stamp < registered.len()
            &&& registered[stamp].hook_type == hook
            &&& serves(registered[stamp], method, path)
        } by {
            if x < earlier.len() {
                assert(all[x] == earlier[x]);
                assert(init[earlier[x]] == registered[earlier[x]]);
            }
        }
        assert forall|x: int, y: int| 0 <= x < y < all.len() implies all[x] < all[y] by {
            assert(all[x] == earlier[x]);
            if y < earlier.len() {
                assert(all[y] == earlier[y]);
            }
        }
        assert forall|stamp: int|
            0 <= stamp < registered.len() && registered[stamp].hook_type == hook && serves(
                registered[stamp],
                method,
                path,
            ) implies all.contains(stamp) by {
            if stamp < init.len() {
                assert(init[stamp] == registered[stamp]);
                assert(earlier.contains(stamp));
                let x = choose|x: int| 0 <= x < earlier.len() && earlier[x] == stamp;
                assert(all[x] == stamp);
            } else {
                assert(all[all.len() - 1] == stamp);
            }
        }
    }
}

/// The plan holds exactly the stamps of the serving registrations, in
/// dispatch order.
pub proof fn lemma_plan<F>(registered: Seq<Handler<F>>, method: Method, path: Seq<char>)
    ensures
        in_order(registered, plan(registered, method, path)),
        forall|stamp: int|
            plan(registered, method, path).contains(stamp) <==> 0 <= stamp < registered.len()
                && serves(registered[stamp], method, path),
{
    let before = picks(registered, method, path, HookType::Before);
    let main = picks(registered, method, path, HookType::Main);
    let after = picks(registered, method, path, HookType::After);
    let all = plan(registered, method, path);
    lemma_picks(registered, method, path, HookType::Before);
    lemma_picks(registered, method, path, HookType::Main);
    lemma_picks(registered, method, path, HookType::After);
    assert forall|x: int| 0 <= x < all.len() implies {
        &&& 0 <= #[trigger] all[x] < registered.len()
        &&& serves(registered[all[x]], method, path)
        &&& x < before.len() ==> registered[all[x]].hook_type == HookType::Before && all[x]
            == before[x]
        &&& before.len() <= x < before.len() + main.len() ==> registered[all[x]].hook_type
            == HookType::Main && all[x] == main[x - before.len()]
        &&& before.len() + main.len() <= x ==> registered[all[x]].hook_type == HookType::After
            && all[x] == after[x - before.len() - main.len()]
    } by {
        if x < before.len() {
            assert(all[x] == before[x]);
        } else if x < before.len() + main.len() {
            assert(all[x] == main[x - before.len()]);
        } else {
            assert(all[x] == after[x - before.len() - main.len()]);
        }
    }
    assert forall|x: int, y: int| 0 <= x < y < all.len() implies ahead(
        registered,
        #[trigger] all[x],
        #[trigger] all[y],
    ) by {
        if y < before.len() {
            assert(before[x] < before[y]);
        } else if x >= before.len() && y < before.len() + main.len() {
            assert(main[x - before.len()] < main[y - before.len()]);
        } else if x >= before.len() + main.len() {
            assert(after[x - before.len() - main.len()] < after[y - before.len() - main.len()]);
        }
    }
    assert forall|stamp: int|
        plan(registered, method, path).contains(stamp) <==> 0 <= stamp < registered.len() && serves(
            registered[stamp],
            method,
            path,
        ) by {
        if all.contains(stamp) {
            let x = choose|x: int| 0 <= x < all.len() && all[x] == stamp;
            assert(0 <= all[x] < registered.len());
        }
        if 0 <= stamp < registered.len() && serves(registered[stamp], method, path) {
            match registered[stamp].hook_type {
                HookType::Before => {
                    assert(before.contains(stamp));
                    let x = choose|x: int| 0 <= x < before.len() && before[x] == stamp;
                    assert(all[x] == stamp);
                },
                HookType::Main => {
                    assert(main.contains(stamp));
                    let x = choose|x: int| 0 <= x < main.len() && main[x] == stamp;
                    assert(all[before.len() + x] == stamp);
                },
                HookType::After => {
                    assert(after.contains(stamp));
                    let x = choose|x: int| 0 <= x < after.len() && after[x] == stamp;
                    assert(all[before.len() + main.len() + x] == stamp);
                },
            }
        }
    }
}

/// Dispatch order leaves no choice: two sequences of stamps that stand in
/// dispatch order and hold the same stamps are one sequence.
pub proof fn lemma_one_order<F>(registered: Seq<Handler<F>>, one: Seq<int>, other: Seq<int>)
    requires
        in_order(registered, one),
        in_order(registered, other),
        forall|stamp: int| one.contains(stamp) <==> other.contains(stamp),
    ensures
        one == other,
    decreases one.len(),
{
    if one.len() == 0 {
        if other.len() > 0 {
            assert(other.contains(other[0]));
        }
        assert(one =~= other);
    } else {
        assert(one.contains(one[0]));
        assert(other.len() > 0);
        let x = one.last();
        let y = other.last();
        assert(one.contains(x));
        assert(other.contains(y));
        let j = choose|j: int| 0 <= j < other.len() && other[j] == x;
        let i = choose|i: int| 0 <= i < one.len() && one[i] == y;
        if j < other.len() - 1 && i < one.len() - 1 {
            assert(ahead(registered, other[j], other[other.len() - 1]));
            assert(ahead(registered, one[i], one[one.len() - 1]));
        }
        assert(x == y);
        let a = one.drop_last();
        let b = other.drop_last();
        assert forall|stamp: int| a.contains(stamp) <==> b.contains(stamp) by {
            if a.contains(stamp) {
                let i = choose|i: int| 0 <= i < a.len() && a[i] == stamp;
                assert(ahead(registered, one[i], one[one.len() - 1]));
                assert(one.contains(stamp));
                let j = choose|j: int| 0 <= j < other.len() && other[j] == stamp;
                assert(b[j] == stamp);
            }
            if b.contains(stamp) {
                let j = choose|j: int| 0 <= j < b.len() && b[j] == stamp;
                assert(ahead(registered, other[j], other[other.len() - 1]));
                assert(other.contains(stamp));
                let i = choose|i: int| 0 <= i < one.len() && one[i] == stamp;
                assert(a[i] == stamp);
            }
        }
        assert(in_order(registered, a)) by {
            assert forall|p: int, q: int| 0 <= p < q < a.len() implies ahead(
                registered,
                #[trigger] a[p],
                #[trigger] a[q],
            ) by {
                assert(one[p] == a[p] && one[q] == a[q]);
            }
        }
        assert(in_order(registered, b)) by {
            assert forall|p: int, q: int| 0 <= p < q < b.len() implies ahead(
                registered,
                #[trigger] b[p],
                #[trigger] b[q],
            ) by {
                assert(other[p] == b[p] && other[q] == b[q]);
            }
        }
        lemma_one_order(registered, a, b);
        assert(one =~= a.push(x));
        assert(other =~= b.push(y));
    }
}

/// Whether a pattern is made of literal fragments only: it is not the
/// catch-all, and none of its fragments is a parameter or the wildcard.
pub open spec fn literal_only(pattern: Seq<char>) -> bool {
    &&& pattern != star()
    &&& forall|i: int|
        0 <= i < fragments(pattern).len() ==> parameter_of(#[trigger] fragments(pattern)[i]) is None
            && fragments(pattern)[i] != star()
}

/// Fragments without a parameter among them capture nothing.
proof fn lemma_literals_capture_nothing(pattern: Seq<Seq<char>>, request: Seq<Seq<char>>, n: nat)
    requires
        n <= pattern.len(),
        forall|i: int| 0 <= i < pattern.len() ==> parameter_of(#[trigger] pattern[i]) is None,
    ensures
        captured(pattern, request, n) == Map::<Seq<char>, Seq<char>>::empty(),
    decreases n,
{
    if n > 0 {
        lemma_literals_capture_nothing(pattern, request, (n - 1) as nat);
    }
}

/// A registration whose pattern is made of literals only serves a request for
/// that very path, and stands in the match list exactly once, with no
/// parameters.
pub proof fn lemma_literal_match<F>(registered: Seq<Handler<F>>, stamp: int, method: Method)
    requires
        0 <= stamp < registered.len(),
        literal_only(registered[stamp].path@),
        method_serves(registered[stamp].method, method),
    ensures
        ({
            let path = registered[stamp].path@;
            exists|x: int|
                {
                    &&& 0 <= x < plan(registered, method, path).len()
                    &&& #[trigger] plan(registered, method, path)[x] == stamp
                    &&& route(registered, method, path)[x] == (
                        registered[stamp],
                        Map::<Seq<char>, Seq<char>>::empty(),
                    )
                    &&& forall|y: int|
                        0 <= y < plan(registered, method, path).len() && #[trigger] plan(
                            registered,
                            method,
                            path,
                        )[y] == stamp ==> y == x
                }
        }),
{
    let path = registered[stamp].path@;
    let all = plan(registered, method, path);
    lemma_plan(registered, method, path);
    lemma_literals_capture_nothing(fragments(path), fragments(path), fragments(path).len());
    assert(fragments_match(fragments(path), fragments(path)));
    assert(all.contains(stamp));
    let x = choose|x: int| 0 <= x < all.len() && all[x] == stamp;
    assert forall|y: int| 0 <= y < all.len() && #[trigger] all[y] == stamp implies y == x by {
        if y < x {
            assert(ahead(registered, all[y], all[x]));
        } else if x < y {
            assert(ahead(registered, all[x], all[y]));
        }
    }
    assert(all[x] == stamp);
}

/// Of two registrations of one phase that both stand in a match list, the one
/// registered first stands first.
pub proof fn lemma_order_stable<F>(
    registered: Seq<Handler<F>>,
    method: Method,
    path: Seq<char>,
    x: int,
    y: int,
)
    requires
        0 <= x < plan(registered, method, path).len(),
        0 <= y < plan(registered, method, path).len(),
        plan(registered, method, path)[x] < plan(registered, method, path)[y],
        registered[plan(registered, method, path)[x]].hook_type == registered[plan(
            registered,
            method,
            path,
        )[y]].hook_type,
    ensures
        x < y,
{
    let all = plan(registered, method, path);
    lemma_plan(registered, method, path);
    if y < x {
        assert(ahead(registered, all[y], all[x]));
    }
}

/// In a match list, no handler stands before one of an earlier phase.
pub proof fn lemma_phases_in_order<F>(
    registered: Seq<Handler<F>>,
    method: Method,
    path: Seq<char>,
    x: int,
    y: int,
)
    requires
        0 <= x < y < plan(registered, method, path).len(),
    ensures
        rank(registered[plan(registered, method, path)[x]].hook_type) <= rank(
            registered[plan(registered, method, path)[y]].hook_type,
        ),
{
    let all = plan(registered, method, path);
    lemma_plan(registered, method, path);
    assert(ahead(registered, all[x], all[y]));
}

/// A registration for the catch-all pattern stands in the match list of every
/// path that is requested with a method it serves, with no parameters.
pub proof fn lemma_catch_all<F>(
    registered: Seq<Handler<F>>,
    stamp: int,
    method: Method,
    path: Seq<char>,
)
    requires
        0 <= stamp < registered.len(),
        registered[stamp].path@ == star(),
        method_serves(registered[stamp].method, method),
    ensures
        exists|x: int|
            {
                &&& 0 <= x < plan(registered, method, path).len()
                &&& #[trigger] plan(registered, method, path)[x] == stamp
                &&& route(registered, method, path)[x] == (
                    registered[stamp],
                    Map::<Seq<char>, Seq<char>>::empty(),
                )
            },
{
    let all = plan(registered, method, path);
    lemma_plan(registered, method, path);
    assert(all.contains(stamp));
    let x = choose|x: int| 0 <= x < all.len() && all[x] == stamp;
    assert(all[x] == stamp);
}

/// Whether `s` is the single character `*`.
pub(crate) fn is_star(s: &str) -> (r: bool)
    ensures
        r == (s@ == star()),
{
    proof {
        reveal_strlit("*");
        assert("*"@ =~= star());
    }
    str_eq(s, "*")
}

/// Splits a path into its fragments, behind one empty fragment that stands
/// for the root: the fragment at index `i` belongs to depth `i` of the trie.
pub fn split_path(path: &str) -> (parts: Vec<String>)
    ensures
        parts.deep_view() == seq![Seq::<char>::empty()] + fragments(path@),
{
    let chars = chars_of(path);
    let n = chars.len();
    let mut parts: Vec<String> = Vec::new();
    parts.push(String::new());
    let mut start: usize = 0;
    let mut i: usize = 0;
    assert(parts.deep_view() =~= seq![Seq::<char>::empty()]);
    assert(chars@.skip(0) =~= chars@);
    while i < n
        invariant
            start <= i <= n == chars@.len(),
            chars@ == path@,
            forall|j: int| start <= j < i ==> chars@[j] != '/',
            parts.deep_view() + fragments(chars@.skip(start as int)) == seq![Seq::<char>::empty()]
                + fragments(path@),
        decreases n - i,
    {
        if chars[i] == '/' {
            let ghost tail = chars@.skip(start as int);
            let ghost before = parts.deep_view();
            proof {
                assert forall|j: int| 0 <= j < i - start implies tail[j] != '/' by {
                    assert(tail[j] == chars@[start + j]);
                }
                lemma_find(tail, '/', i - start);
                assert(tail.skip(i - start + 1) =~= chars@.skip(i + 1));
                assert(tail.take(i - start) =~= chars@.subrange(start as int, i as int));
            }
            if i > start {
                let piece = string_of(&chars, start, i);
                parts.push(piece);
                proof {
                    assert(parts.deep_view() =~= before + seq![chars@.subrange(start as int, i as int)]);
                    assert(parts.deep_view() + fragments(chars@.skip(i + 1)) =~= before + fragments(
                        tail,
                    ));
                }
            }
            start = i + 1;
        }
        i = i + 1;
    }
    let ghost tail = chars@.skip(start as int);
    let ghost before = parts.deep_view();
    proof {
        assert forall|j: int| 0 <= j < n - start implies tail[j] != '/' by {
            assert(tail[j] == chars@[start + j]);
        }
        lemma_find(tail, '/', n - start);
    }
    if start < n {
        let piece = string_of(&chars, start, n);
        parts.push(piece);
        proof {
            assert(chars@.subrange(start as int, n as int) =~= tail);
            assert(parts.deep_view() =~= before + seq![tail]);
        }
    } else {
        proof {
            assert(before + Seq::<Seq<char>>::empty() =~= before);
        }
    }
    parts
}

} // verus!
