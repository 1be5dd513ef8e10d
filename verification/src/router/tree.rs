//! The routing trie.
//!
//! Registration threads a pattern's fragments through the trie and leaves the
//! handler at the node where the pattern ends. Matching walks the trie in
//! step with the fragments of a request path and gathers the handlers of
//! every node that the whole path leads to.
//!
//! What the trie computes is stated without it: a tree stands for the
//! sequence of its registrations, and the match list of a request is the
//! `route` of that sequence.

pub mod lookup;
pub mod node;
pub mod order;
pub mod pattern;

use vstd::prelude::*;
use vstd::string::StringExecFns;
use std::rc::Rc;
use crate::router::handler::Handler;
use crate::text::str_eq;
use self::node::{parameter_of, parameter_view, Node, PrioritizedHandler};
use self::pattern::{fragments, is_star, split_path, star};

verus! {

/// The trie, with the catch-all bucket beside it.
///
/// The nodes live in an arena and name each other by index; the root is the
/// node at index 0.
pub struct Tree<F> {
    order: u32,
    nodes: Vec<Node<F>>,
    all: Node<F>,
    /// Every registration so far; a registration's stamp is its index.
    registered: Ghost<Seq<Handler<F>>>,
    /// For each node, the nodes on the way from the root down to it, both
    /// ends included.
    lines: Ghost<Seq<Seq<int>>>,
    /// For each stamp, the node that holds its handler and the handler's
    /// position there. The catch-all bucket goes by the node number -1.
    slots: Ghost<Seq<(int, int)>>,
}

/// The fragments of `way` in one string, a slash before each.
pub open spec fn slashed(way: Seq<Seq<char>>) -> Seq<char>
    decreases way.len(),
{
    if way.len() == 0 {
        Seq::empty()
    } else {
        slashed(way.drop_last()) + seq!['/'] + way.last()
    }
}

/// Whether the entries stand in the order of their stamps, each stamp
/// smaller than the next.
pub open spec fn ascending<F>(entries: Seq<PrioritizedHandler<F>>) -> bool {
    forall|i: int, j: int|
        0 <= i < j < entries.len() ==> (#[trigger] entries[i]).0 < (#[trigger] entries[j]).0
}

/// The number of handlers that the nodes in `nodes` hold between them.
pub open spec fn held<F>(nodes: Seq<Node<F>>) -> nat
    decreases nodes.len(),
{
    if nodes.len() == 0 {
        0
    } else {
        held(nodes.drop_last()) + nodes.last().handlers@.len()
    }
}

/// Nodes that hold as many handlers each hold as many between them; where
/// one node, `grown`, holds one more, so does the whole.
proof fn lemma_held<F>(before: Seq<Node<F>>, after: Seq<Node<F>>, grown: int)
    requires
        before.len() == after.len(),
        forall|k: int|
            0 <= k < before.len() && k != grown ==> (#[trigger] after[k]).handlers@.len()
                == before[k].handlers@.len(),
        0 <= grown < before.len() ==> after[grown].handlers@.len() == before[grown].handlers@.len()
            + 1,
    ensures
        held(after) == held(before) + if 0 <= grown < before.len() {
            1nat
        } else {
            0nat
        },
    decreases before.len(),
{
    if before.len() > 0 {
        let last = before.len() - 1;
        assert(after[last].handlers@.len() == before[last].handlers@.len() + if grown == last {
            1nat
        } else {
            0nat
        });
        assert forall|k: int|
            0 <= k < before.drop_last().len() && k != grown implies (#[trigger] after.drop_last()[k]).handlers@.len()
            == before.drop_last()[k].handlers@.len() by {
            assert(after[k].handlers@.len() == before[k].handlers@.len());
        }
        lemma_held(before.drop_last(), after.drop_last(), if grown == last {
            -1
        } else {
            grown
        });
    }
}

impl<F> View for Tree<F> {
    type V = Seq<Handler<F>>;

    /// The registrations, in the order in which they were made.
    closed spec fn view(&self) -> Seq<Handler<F>> {
        self.registered@
    }
}

impl<F> Tree<F> {
    /// The stamp that the next registration gets.
    pub closed spec fn next_order(&self) -> u32 {
        self.order
    }

    /// The nodes of the trie; the root comes first.
    pub closed spec fn arena(&self) -> Seq<Node<F>> {
        self.nodes@
    }

    /// The number of nodes in the trie, the root included.
    pub open spec fn size(&self) -> nat {
        self.arena().len()
    }

    /// The node at index `k`.
    pub open spec fn node_at(&self, k: int) -> Node<F> {
        self.arena()[k]
    }

    /// The node that holds the catch-all handlers.
    pub closed spec fn bucket(&self) -> Node<F> {
        self.all
    }

    /// The number of handlers stored in the tree: those in the catch-all
    /// bucket and those at the nodes.
    pub open spec fn stored(&self) -> nat {
        self.bucket().handlers@.len() + held(self.arena())
    }

    /// The fragments on the way from the root to node `k`.
    pub closed spec fn path_of(&self, k: int) -> Seq<Seq<char>> {
        Seq::new(
            (self.lines@[k].len() - 1) as nat,
            |t: int| self.nodes@[self.lines@[k][t + 1]].fragment@,
        )
    }

    /// Node `k` hangs where its line says: under its parent, which holds it
    /// as a child, at the end of the parent's own line.
    spec fn link_ok(&self, k: int) -> bool {
        let node = self.nodes@[k];
        let line = self.lines@[k];
        &&& parameter_view(node.parameter) == parameter_of(node.fragment@)
        &&& line.len() >= 1
        &&& line[0] == 0
        &&& line.last() == k
        &&& forall|t: int|
            0 <= t < line.len() ==> 0 <= #[trigger] line[t] <= k && self.lines@[line[t]]
                == line.take(t + 1)
        &&& if k == 0 {
            node.parent is None && line.len() == 1
        } else {
            &&& node.parent matches Some(p)
            &&& p < k
            &&& line == self.lines@[p as int].push(k)
            &&& exists|a: int|
                0 <= a < self.nodes@[p as int].next@.len() && self.nodes@[p as int].next@[a] == k
        }
    }

    /// The children of node `k` are nodes that name `k` as their parent, and
    /// no two of them have the same fragment.
    spec fn children_ok(&self, k: int) -> bool {
        let next = self.nodes@[k].next@;
        &&& forall|a: int|
            0 <= a < next.len() ==> k < #[trigger] next[a] < self.nodes@.len()
                && self.nodes@[next[a] as int].parent == Some(k as usize)
        &&& forall|a: int, b: int|
            0 <= a < b < next.len() ==> self.nodes@[#[trigger] next[a] as int].fragment@
                != self.nodes@[#[trigger] next[b] as int].fragment@
    }

    /// The entry at position `j` of node `k` (of the bucket, for `k` below
    /// zero) is a registration, recorded at this very slot, whose pattern
    /// leads to this node.
    spec fn entry_ok(&self, entry: PrioritizedHandler<F>, k: int, j: int) -> bool {
        let stamp = entry.0 as int;
        &&& stamp < self.registered@.len()
        &&& *entry.1 == self.registered@[stamp]
        &&& self.slots@[stamp] == (k, j)
        &&& if k < 0 {
            self.registered@[stamp].path@ == star()
        } else {
            self.registered@[stamp].path@ != star() && fragments(self.registered@[stamp].path@)
                == self.path_of(k)
        }
    }

    spec fn entries_ok(&self, k: int) -> bool {
        let entries = self.nodes@[k].handlers@;
        &&& forall|j: int| 0 <= j < entries.len() ==> self.entry_ok(#[trigger] entries[j], k, j)
        &&& ascending(entries)
    }

    spec fn bucket_ok(&self) -> bool {
        &&& self.all.fragment@ == star()
        &&& self.all.next@.len() == 0
        &&& self.all.parent is None
        &&& forall|j: int|
            0 <= j < self.all.handlers@.len() ==> self.entry_ok(
                #[trigger] self.all.handlers@[j],
                -1,
                j,
            )
        &&& ascending(self.all.handlers@)
    }

    /// The registration with stamp `stamp` is stored at its slot.
    spec fn stamp_ok(&self, stamp: int) -> bool {
        let (k, j) = self.slots@[stamp];
        if k == -1 {
            0 <= j < self.all.handlers@.len() && self.all.handlers@[j].0 == stamp
        } else {
            &&& 0 <= k < self.nodes@.len()
            &&& 0 <= j < self.nodes@[k].handlers@.len()
            &&& self.nodes@[k].handlers@[j].0 == stamp
        }
    }

    /// The tree is well formed: the nodes form a tree under the root, every
    /// registration is stored exactly once, at the node that its pattern
    /// leads to or in the catch-all bucket, under its stamp.
    pub closed spec fn wf(&self) -> bool {
        &&& self.nodes@.len() >= 1
        &&& self.order == self.registered@.len()
        &&& self.lines@.len() == self.nodes@.len()
        &&& self.slots@.len() == self.registered@.len()
        &&& self.stored() == self.registered@.len()
        &&& self.nodes@[0].fragment@ == "root"@
        &&& forall|k: int| 0 <= k < self.nodes@.len() ==> #[trigger] self.link_ok(k)
        &&& forall|k: int| 0 <= k < self.nodes@.len() ==> #[trigger] self.children_ok(k)
        &&& forall|k: int| 0 <= k < self.nodes@.len() ==> #[trigger] self.entries_ok(k)
        &&& self.bucket_ok()
        &&& forall|stamp: int| 0 <= stamp < self.registered@.len() ==> #[trigger] self.stamp_ok(stamp)
    }

    /// Whether node `k` of `before` is still node `k` of this tree: it has
    /// its fragment, its parameter, its parent and its path, and what it had
    /// of children and of handlers still stands first in its lists, in the
    /// same order. It has at most one child more, and that is a node which
    /// `before` did not have.
    pub open spec fn node_kept(&self, before: Tree<F>, k: int) -> bool {
        let was = before.node_at(k);
        let now = self.node_at(k);
        &&& now.fragment == was.fragment
        &&& now.parameter == was.parameter
        &&& now.parent == was.parent
        &&& self.path_of(k) == before.path_of(k)
        &&& was.handlers@.len() <= now.handlers@.len()
        &&& was.handlers@ == now.handlers@.take(was.handlers@.len() as int)
        &&& was.next@.len() <= now.next@.len() <= was.next@.len() + 1
        &&& was.next@ == now.next@.take(was.next@.len() as int)
        &&& now.next@.len() > was.next@.len() ==> now.next@.last() >= before.size()
    }

    /// Whether node `k` lies on the way that the pattern `pattern` takes
    /// through the trie, below the root: its path is made of the first
    /// fragments of the pattern.
    pub open spec fn node_on_way(&self, k: int, pattern: Seq<char>) -> bool {
        exists|n: int|
            1 <= n <= fragments(pattern).len() && self.path_of(k) == #[trigger] fragments(
                pattern,
            ).take(n)
    }

    /// The handlers that node `k` held in `before`; none if `before` had no
    /// such node.
    pub open spec fn held_at(before: Tree<F>, k: int) -> Seq<PrioritizedHandler<F>> {
        if 0 <= k < before.size() {
            before.node_at(k).handlers@
        } else {
            Seq::empty()
        }
    }

    /// Whether `now` is `was` with `handler` behind it, under the stamp
    /// `stamp`.
    pub open spec fn appended(
        was: Seq<PrioritizedHandler<F>>,
        now: Seq<PrioritizedHandler<F>>,
        stamp: u32,
        handler: Handler<F>,
    ) -> bool {
        &&& now.len() == was.len() + 1
        &&& now.drop_last() == was
        &&& now.last().0 == stamp
        &&& *now.last().1 == handler
    }

    /// Whether node `k` holds what the registration of `handler` in
    /// `before` leaves it with: the node that the pattern leads to holds
    /// what it held with `handler` behind it, under the stamp that was next;
    /// any other node holds what it held.
    pub open spec fn holds_after(&self, before: Tree<F>, k: int, handler: Handler<F>) -> bool {
        if self.path_of(k) == fragments(handler.path@) {
            Self::appended(
                Self::held_at(before, k),
                self.node_at(k).handlers@,
                before.next_order(),
                handler,
            )
        } else {
            self.node_at(k).handlers@ == Self::held_at(before, k)
        }
    }

    /// A well-formed tree has its root.
    pub proof fn lemma_has_root(&self)
        requires
            self.wf(),
        ensures
            self.size() >= 1,
    {
    }

    /// No two children of a node have the same fragment; so a node is found
    /// under its parent by its fragment, and no child stands twice in the
    /// list.
    pub proof fn lemma_children_differ(&self, k: int, a: int, b: int)
        requires
            self.wf(),
            0 <= k < self.size(),
            0 <= a < self.node_at(k).next@.len(),
            0 <= b < self.node_at(k).next@.len(),
            a != b,
        ensures
            self.node_at(k).next@[a] < self.size(),
            self.node_at(k).next@[b] < self.size(),
            self.node_at(self.node_at(k).next@[a] as int).fragment@ != self.node_at(
                self.node_at(k).next@[b] as int,
            ).fragment@,
            self.node_at(k).next@[a] != self.node_at(k).next@[b],
    {
        assert(self.children_ok(k));
        let next = self.nodes@[k].next@;
        if a < b {
            assert(self.nodes@[next[a] as int].fragment@ != self.nodes@[next[b] as int].fragment@);
        } else {
            assert(self.nodes@[next[b] as int].fragment@ != self.nodes@[next[a] as int].fragment@);
        }
    }

    /// One path has one node: two nodes with the same path are one node.
    pub proof fn lemma_one_node_per_path(&self, k: int, l: int)
        requires
            self.wf(),
            0 <= k < self.size(),
            0 <= l < self.size(),
            self.path_of(k) == self.path_of(l),
        ensures
            k == l,
        decreases k,
    {
        assert(self.link_ok(k));
        assert(self.link_ok(l));
        assert(self.path_of(k).len() == self.lines@[k].len() - 1);
        assert(self.path_of(l).len() == self.lines@[l].len() - 1);
        if k > 0 {
            assert(l > 0);
            let p = self.nodes@[k].parent->0 as int;
            let q = self.nodes@[l].parent->0 as int;
            assert(self.link_ok(p));
            assert(self.link_ok(q));
            let up = self.path_of(p);
            assert(self.path_of(k) =~= up.push(self.nodes@[k].fragment@));
            assert(self.path_of(l) =~= self.path_of(q).push(self.nodes@[l].fragment@));
            assert(up =~= self.path_of(k).drop_last());
            assert(self.path_of(q) =~= self.path_of(l).drop_last());
            self.lemma_one_node_per_path(p, q);
            assert(self.nodes@[k].fragment@ == self.path_of(k).last());
            assert(self.nodes@[l].fragment@ == self.path_of(l).last());
            assert(self.children_ok(p));
            let a = choose|a: int| 0 <= a < self.nodes@[p].next@.len() && self.nodes@[p].next@[a] == k;
            let b = choose|b: int| 0 <= b < self.nodes@[p].next@.len() && self.nodes@[p].next@[b] == l;
            if a < b {
                assert(self.nodes@[self.nodes@[p].next@[a] as int].fragment@
                    != self.nodes@[self.nodes@[p].next@[b] as int].fragment@);
            } else if b < a {
                assert(self.nodes@[self.nodes@[p].next@[b] as int].fragment@
                    != self.nodes@[self.nodes@[p].next@[a] as int].fragment@);
            }
        }
    }

    /// What is kept from one tree to a second and from the second to a
    /// third is kept from the first to the third.
    proof fn lemma_kept_on(&self, before: Tree<F>, middle: Tree<F>, k: int)
        requires
            0 <= k < before.size() <= middle.size() <= self.size(),
            middle.node_kept(before, k),
            self.node_kept(middle, k),
            middle.node_at(k).next == before.node_at(k).next || self.node_at(k).next
                == middle.node_at(k).next,
        ensures
            self.node_kept(before, k),
    {
        let a = before.node_at(k);
        let b = middle.node_at(k);
        let c = self.node_at(k);
        assert(a.handlers@ =~= c.handlers@.take(a.handlers@.len() as int)) by {
            assert(b.handlers@.take(a.handlers@.len() as int) =~= c.handlers@.take(
                a.handlers@.len() as int,
            ));
        }
        assert(a.next@ =~= c.next@.take(a.next@.len() as int)) by {
            assert(b.next@.take(a.next@.len() as int) =~= c.next@.take(a.next@.len() as int));
        }
    }

    /// Registrations are counted: the stamp that comes next is the number of
    /// registrations made so far, and so is the number of handlers stored in
    /// the bucket and at the nodes.
    pub proof fn lemma_registrations_counted(&self)
        requires
            self.wf(),
        ensures
            self.next_order() == self@.len(),
            self.stored() == self@.len(),
    {
    }

    /// An empty tree: a root without handlers or children, and an empty
    /// catch-all bucket.
    pub fn new() -> (tree: Tree<F>)
        ensures
            tree.wf(),
            tree@ == Seq::<Handler<F>>::empty(),
            tree.next_order() == 0,
            tree.size() == 1,
            tree.node_at(0).handlers@.len() == 0,
            tree.node_at(0).next@.len() == 0,
            tree.bucket().handlers@.len() == 0,
            tree.stored() == 0,
    {
        let root: Node<F> = Node::new("root");
        let all: Node<F> = Node::new("*");
        let mut nodes: Vec<Node<F>> = Vec::new();
        nodes.push(root);
        proof {
            reveal_strlit("*");
            assert("*"@ =~= star());
        }
        let ghost root_line: Seq<int> = Seq::empty().push(0int);
        let tree = Tree {
            order: 0,
            nodes,
            all,
            registered: Ghost(Seq::empty()),
            lines: Ghost(Seq::empty().push(root_line)),
            slots: Ghost(Seq::empty()),
        };
        proof {
            assert(tree.nodes@.drop_last() =~= Seq::<Node<F>>::empty());
            assert(held(tree.nodes@) == 0) by {
                reveal_with_fuel(held, 2);
            }
            assert(tree.lines@[0].take(1) =~= tree.lines@[0]);
            assert(tree.link_ok(0));
            assert(tree.children_ok(0));
            assert(tree.entries_ok(0));
        }
        tree
    }

    /// The stamp that the next registration gets: the number of
    /// registrations so far.
    pub fn order(&self) -> (order: u32)
        ensures
            order == self.next_order(),
    {
        self.order
    }

    /// The index of the root.
    pub fn root(&self) -> (root: usize)
        ensures
            root == 0,
    {
        0
    }

    /// The number of nodes, the root included.
    pub fn len(&self) -> (n: usize)
        ensures
            n == self.size(),
    {
        self.nodes.len()
    }

    /// The node at index `id`, if there is one.
    pub fn node(&self, id: usize) -> (node: Option<&Node<F>>)
        ensures
            match node {
                Some(n) => id < self.size() && *n == self.node_at(id as int),
                None => id >= self.size(),
            },
    {
        if id < self.nodes.len() {
            Some(&self.nodes[id])
        } else {
            None
        }
    }

    /// The node that holds the handlers of the catch-all pattern.
    pub fn all(&self) -> (node: &Node<F>)
        ensures
            *node == self.bucket(),
    {
        &self.all
    }

    /// The parent of node `id`; `None` for the root and for an index that
    /// names no node.
    pub fn parent(&self, id: usize) -> (parent: Option<usize>)
        ensures
            parent == if id < self.size() {
                self.node_at(id as int).parent
            } else {
                None
            },
    {
        if id < self.nodes.len() {
            self.nodes[id].parent
        } else {
            None
        }
    }

    /// What a node holds was registered: the handler at position `j` of
    /// node `k` is the registration that its stamp names, and the fragments
    /// of its pattern are those on the way from the root to the node. No
    /// other place in the tree holds that stamp.
    pub proof fn lemma_stored_was_registered(&self, k: int, j: int)
        requires
            self.wf(),
            0 <= k < self.size(),
            0 <= j < self.node_at(k).handlers@.len(),
        ensures
            ({
                let (stamp, handler) = self.node_at(k).handlers@[j];
                &&& stamp < self@.len()
                &&& *handler == self@[stamp as int]
                &&& handler.path@ != star()
                &&& fragments(handler.path@) == self.path_of(k)
                &&& ascending(self.node_at(k).handlers@)
                &&& forall|l: int, i: int|
                    0 <= l < self.size() && 0 <= i < self.node_at(l).handlers@.len() && (l, i) != (k, j)
                        ==> (#[trigger] self.node_at(l).handlers@[i]).0 != stamp
                &&& forall|i: int|
                    0 <= i < self.bucket().handlers@.len() ==> (#[trigger] self.bucket().handlers@[i]).0
                        != stamp
            }),
    {
        assert(self.entries_ok(k));
        let stamp = self.nodes@[k].handlers@[j].0;
        assert(self.entry_ok(self.nodes@[k].handlers@[j], k, j));
        assert forall|l: int, i: int|
            0 <= l < self.size() && 0 <= i < self.node_at(l).handlers@.len() && (l, i) != (
                k,
                j,
            ) implies (#[trigger] self.node_at(l).handlers@[i]).0 != stamp by {
            assert(self.entries_ok(l));
            assert(self.entry_ok(self.nodes@[l].handlers@[i], l, i));
        }
        assert forall|i: int| 0 <= i < self.bucket().handlers@.len() implies (#[trigger] self.bucket().handlers@[i]).0
            != stamp by {
            assert(self.entry_ok(self.all.handlers@[i], -1, i));
        }
    }

    /// What the bucket holds was registered for the catch-all pattern: the
    /// handler at position `j` is the registration that its stamp names, and
    /// no other position of the bucket holds that stamp.
    pub proof fn lemma_bucket_was_registered(&self, j: int)
        requires
            self.wf(),
            0 <= j < self.bucket().handlers@.len(),
        ensures
            ({
                let (stamp, handler) = self.bucket().handlers@[j];
                &&& stamp < self@.len()
                &&& *handler == self@[stamp as int]
                &&& handler.path@ == star()
                &&& ascending(self.bucket().handlers@)
                &&& forall|i: int|
                    0 <= i < self.bucket().handlers@.len() && i != j ==> (#[trigger] self.bucket().handlers@[i]).0
                        != stamp
            }),
    {
        let stamp = self.all.handlers@[j].0;
        assert(self.entry_ok(self.all.handlers@[j], -1, j));
        assert forall|i: int| 0 <= i < self.bucket().handlers@.len() && i != j implies (#[trigger] self.bucket().handlers@[i]).0
            != stamp by {
            assert(self.entry_ok(self.all.handlers@[i], -1, i));
        }
    }

    /// What was registered is stored: the registration `stamp` stands in
    /// the bucket if its pattern is the catch-all, and at a node otherwise.
    pub proof fn lemma_registered_is_stored(&self, stamp: int)
        requires
            self.wf(),
            0 <= stamp < self@.len(),
        ensures
            self@[stamp].path@ == star() ==> exists|j: int|
                0 <= j < self.bucket().handlers@.len() && (#[trigger] self.bucket().handlers@[j]).0
                    == stamp,
            self@[stamp].path@ != star() ==> exists|k: int, j: int|
                0 <= k < self.size() && 0 <= j < self.node_at(k).handlers@.len() && (#[trigger] self.node_at(
                    k,
                ).handlers@[j]).0 == stamp,
    {
        assert(self.stamp_ok(stamp));
        let (k, j) = self.slots@[stamp];
        if k == -1 {
            assert(self.entry_ok(self.all.handlers@[j], -1, j));
            assert(self.bucket().handlers@[j].0 == stamp);
        } else {
            assert(self.entries_ok(k));
            assert(self.entry_ok(self.nodes@[k].handlers@[j], k, j));
            assert(self.node_at(k).handlers@[j].0 == stamp);
        }
    }

    /// The shape of a well-formed tree: the root has no parent and the
    /// fragment `root`; every other node has a parent, which stands before
    /// it in the arena and holds it among its children; and the catch-all
    /// bucket is a node for `*` that hangs under nothing and has no
    /// children.
    pub proof fn lemma_shape(&self, k: int)
        requires
            self.wf(),
            0 <= k < self.size(),
        ensures
            self.node_at(0).parent is None,
            self.node_at(0).fragment@ == "root"@,
            parameter_view(self.node_at(k).parameter) == parameter_of(self.node_at(k).fragment@),
            k > 0 ==> {
                &&& self.node_at(k).parent matches Some(p)
                &&& p < k
                &&& self.node_at(p as int).next@.contains(k as usize)
                &&& self.path_of(k) == self.path_of(p as int).push(self.node_at(k).fragment@)
            },
            self.path_of(0) == Seq::<Seq<char>>::empty(),
            forall|a: int|
                0 <= a < self.node_at(k).next@.len() ==> {
                    let c = #[trigger] self.node_at(k).next@[a];
                    c < self.size() && self.node_at(c as int).parent == Some(k as usize)
                },
            self.bucket().fragment@ == star(),
            self.bucket().parent is None,
            self.bucket().next@.len() == 0,
    {
        assert(self.link_ok(0));
        assert(self.link_ok(k));
        assert(self.children_ok(k));
        assert(self.path_of(0) =~= Seq::<Seq<char>>::empty());
        if k > 0 {
            let p = self.nodes@[k].parent->0 as int;
            let a = choose|a: int| 0 <= a < self.nodes@[p].next@.len() && self.nodes@[p].next@[a] == k;
            assert(self.nodes@[p].next@[a] == k as usize);
            assert(self.link_ok(p));
            assert(self.path_of(k) =~= self.path_of(p).push(self.nodes@[k].fragment@));
        }
    }

    /// On the line of a node, each node behind the root hangs under the
    /// one before it.
    proof fn lemma_parent_on_line(&self, k: int, t: int)
        requires
            self.wf(),
            0 <= k < self.nodes@.len(),
            1 <= t < self.lines@[k].len(),
        ensures
            0 <= self.lines@[k][t - 1] < self.nodes@.len(),
            0 < self.lines@[k][t] < self.nodes@.len(),
            self.nodes@[self.lines@[k][t]].parent == Some(self.lines@[k][t - 1] as usize),
    {
        let c = self.lines@[k][t];
        assert(self.link_ok(k));
        assert(0 <= c <= k);
        assert(self.lines@[c] == self.lines@[k].take(t + 1));
        assert(self.link_ok(c));
        assert(self.link_ok(0));
        let p = self.nodes@[c].parent->0 as int;
        assert(self.link_ok(p));
        assert(self.lines@[p] =~= self.lines@[k].take(t + 1).drop_last());
        assert(self.lines@[p].last() == self.lines@[k][t - 1]);
    }

    /// The path that leads from the root to node `id`, written with a slash
    /// before each fragment.
    pub fn rebuild_path_to_root(&self, id: usize) -> (path: String)
        requires
            self.wf(),
            id < self.size(),
        ensures
            path@ == slashed(self.path_of(id as int)),
    {
        let ghost line = self.lines@[id as int];
        let ghost depth = line.len() - 1;
        let mut ups: Vec<usize> = Vec::new();
        let mut cur: usize = id;
        proof {
            assert(self.link_ok(id as int));
        }
        loop
            invariant
                self.wf(),
                id < self.nodes@.len(),
                line == self.lines@[id as int],
                depth == line.len() - 1,
                ups@.len() <= depth,
                cur == line[depth - ups@.len()],
                cur < self.nodes@.len(),
                forall|j: int| 0 <= j < ups@.len() ==> #[trigger] ups@[j] == line[depth - j],
            ensures
                ups@.len() == depth,
                forall|j: int| 0 <= j < ups@.len() ==> #[trigger] ups@[j] == line[depth - j],
            decreases cur,
        {
            proof {
                assert(self.link_ok(cur as int));
                assert(self.link_ok(id as int));
                if ups@.len() < depth {
                    self.lemma_parent_on_line(id as int, depth - ups@.len());
                } else {
                    assert(cur == 0);
                }
            }
            match self.nodes[cur].parent {
                None => {
                    break ;
                },
                Some(parent) => {
                    ups.push(cur);
                    cur = parent;
                },
            }
        }
        let mut path = String::new();
        let mut j: usize = ups.len();
        proof {
            reveal_strlit("/");
            assert("/"@ =~= seq!['/']);
            assert(self.path_of(id as int).take(0) =~= Seq::<Seq<char>>::empty());
        }
        while j > 0
            invariant
                id < self.nodes@.len(),
                line == self.lines@[id as int],
                depth == line.len() - 1,
                ups@.len() == depth,
                j <= ups@.len(),
                "/"@ == seq!['/'],
                forall|k: int| 0 <= k < ups@.len() ==> #[trigger] ups@[k] == line[depth - k],
                forall|k: int| 0 <= k < ups@.len() ==> 0 <= #[trigger] ups@[k] < self.nodes@.len(),
                path@ == slashed(self.path_of(id as int).take(ups@.len() - j)),
            decreases j,
        {
            j = j - 1;
            let ghost done = self.path_of(id as int).take(ups@.len() - j - 1);
            let ghost next = self.path_of(id as int).take(ups@.len() - j);
            let up = ups[j];
            proof {
                assert(next.drop_last() =~= done);
                assert(next.last() == self.nodes@[up as int].fragment@);
            }
            path.append("/");
            path.append(self.nodes[up].fragment.as_str());
        }
        proof {
            assert(self.path_of(id as int).take(ups@.len() as int) =~= self.path_of(id as int));
        }
        path
    }

    /// The child of node `parent` whose fragment is `fragment`, if there is
    /// one. An index that names no node has no children.
    pub fn child(&self, parent: usize, fragment: &str) -> (found: Option<usize>)
        requires
            self.wf(),
        ensures
            match found {
                Some(c) => {
                    &&& parent < self.size()
                    &&& c < self.size()
                    &&& self.node_at(c as int).parent == Some(parent)
                    &&& self.node_at(c as int).fragment@ == fragment@
                    &&& self.node_at(parent as int).next@.contains(c)
                },
                None => parent < self.size() ==> forall|a: int|
                    0 <= a < self.node_at(parent as int).next@.len() ==> self.node_at(
                        #[trigger] self.node_at(parent as int).next@[a] as int,
                    ).fragment@ != fragment@,
            },
    {
        if parent >= self.nodes.len() {
            return None;
        }
        assert(self.children_ok(parent as int));
        let mut a: usize = 0;
        while a < self.nodes[parent].next.len()
            invariant
                parent < self.nodes@.len(),
                self.children_ok(parent as int),
                a <= self.nodes@[parent as int].next@.len(),
                forall|b: int|
                    0 <= b < a ==> self.nodes@[#[trigger] self.nodes@[parent as int].next@[b] as int].fragment@
                        != fragment@,
            decreases self.nodes@[parent as int].next@.len() - a,
        {
            let c = self.nodes[parent].next[a];
            assert(c == self.nodes@[parent as int].next@[a as int]);
            if str_eq(self.nodes[c].fragment.as_str(), fragment) {
                return Some(c);
            }
            a = a + 1;
        }
        None
    }

    /// The child of node `parent` for `fragment`; the node is made, and hung
    /// under `parent`, if there was none.
    fn descend(&mut self, parent: usize, fragment: &str) -> (child: usize)
        requires
            old(self).wf(),
            parent < old(self).size(),
        ensures
            final(self).wf(),
            final(self)@ == old(self)@,
            final(self).next_order() == old(self).next_order(),
            child < final(self).size(),
            final(self).path_of(child as int) == old(self).path_of(parent as int).push(fragment@),
            final(self).bucket() == old(self).bucket(),
            old(self).size() <= final(self).size() <= old(self).size() + 1,
            forall|k: int|
                0 <= k < old(self).size() ==> #[trigger] final(self).node_kept(*old(self), k)
                    && final(self).node_at(k).handlers == old(self).node_at(k).handlers,
            final(self).size() > old(self).size() ==> child == old(self).size()
                && final(self).node_at(child as int).handlers@.len() == 0
                && final(self).node_at(child as int).next@.len() == 0,
            old(self).node_at(parent as int).next@.len() == 0 ==> final(self).size() > old(self).size(),
            forall|k: int|
                0 <= k < old(self).size() && k != parent ==> (#[trigger] final(self).node_at(k)).next
                    == old(self).node_at(k).next,
            final(self).size() == old(self).size() ==> final(self).node_at(parent as int).next
                == old(self).node_at(parent as int).next,
    {
        match self.child(parent, fragment) {
            Some(c) => {
                proof {
                    assert(self.link_ok(c as int));
                    assert(self.link_ok(parent as int));
                    assert(self.path_of(c as int) =~= self.path_of(parent as int).push(fragment@));
                    assert forall|k: int| 0 <= k < self.size() implies #[trigger] self.node_kept(
                        *self,
                        k,
                    ) by {
                        let node = self.node_at(k);
                        assert(node.handlers@.take(node.handlers@.len() as int) =~= node.handlers@);
                        assert(node.next@.take(node.next@.len() as int) =~= node.next@);
                    }
                }
                c
            },
            None => {
                let ghost before = *self;
                let c = self.nodes.len();
                let mut node: Node<F> = Node::new(fragment);
                node.parent = Some(parent);
                self.nodes.push(node);
                self.nodes[parent].next.push(c);
                proof {
                    self.lines@ = before.lines@.push(before.lines@[parent as int].push(c as int));
                }
                proof {
                    let n = before.nodes@.len() as int;
                    assert(self.nodes@.drop_last().len() == before.nodes@.len());
                    lemma_held(before.nodes@, self.nodes@.drop_last(), -1);
                    assert(before.link_ok(parent as int));
                    assert(before.children_ok(parent as int));
                    assert forall|k: int| 0 <= k < n implies self.nodes@[k].fragment
                        == before.nodes@[k].fragment && self.nodes@[k].parameter
                        == before.nodes@[k].parameter && self.nodes@[k].parent
                        == before.nodes@[k].parent && self.nodes@[k].handlers
                        == before.nodes@[k].handlers && self.lines@[k] == before.lines@[k] by {}
                    assert forall|k: int| 0 <= k < n implies #[trigger] self.path_of(k)
                        == before.path_of(k) by {
                        assert(before.link_ok(k));
                        assert forall|u: int| 0 <= u < before.lines@[k].len() implies self.nodes@[#[trigger] before.lines@[k][u]].fragment@
                            == before.nodes@[before.lines@[k][u]].fragment@ by {
                            assert(0 <= before.lines@[k][u] <= k);
                        }
                        assert(self.path_of(k) =~= before.path_of(k));
                    }
                    assert forall|k: int| 0 <= k < self.nodes@.len() implies #[trigger] self.link_ok(
                        k,
                    ) by {
                        if k < n {
                            assert(before.link_ok(k));
                            if k > 0 {
                                let p = before.nodes@[k].parent->0 as int;
                                let a = choose|a: int|
                                    0 <= a < before.nodes@[p].next@.len() && before.nodes@[p].next@[a]
                                        == k;
                                assert(self.nodes@[p].next@[a] == k);
                            }
                            assert forall|t: int| 0 <= t < self.lines@[k].len() implies 0
                                <= #[trigger] self.lines@[k][t] <= k && self.lines@[self.lines@[k][t]]
                                == self.lines@[k].take(t + 1) by {
                                assert(0 <= before.lines@[k][t] <= k);
                            }
                        } else {
                            let line = self.lines@[k];
                            let up = before.lines@[parent as int];
                            assert(self.nodes@[parent as int].next@[self.nodes@[parent as int].next@.len()
                                - 1] == k);
                            assert forall|t: int| 0 <= t < line.len() implies 0 <= #[trigger] line[t]
                                <= k && self.lines@[line[t]] == line.take(t + 1) by {
                                if t < up.len() {
                                    assert(0 <= up[t] <= parent);
                                    assert(before.lines@[up[t]] == up.take(t + 1));
                                    assert(line.take(t + 1) =~= up.take(t + 1));
                                } else {
                                    assert(line.take(t + 1) =~= line);
                                }
                            }
                        }
                    }
                    assert forall|k: int| 0 <= k < self.nodes@.len() implies #[trigger] self.children_ok(
                        k,
                    ) by {
                        if k < n {
                            assert(before.children_ok(k));
                            let next = self.nodes@[k].next@;
                            assert forall|a: int| 0 <= a < next.len() implies k < #[trigger] next[a]
                                < self.nodes@.len() && self.nodes@[next[a] as int].parent == Some(
                                k as usize,
                            ) by {
                                if k == parent && a == next.len() - 1 {
                                } else {
                                    assert(next[a] == before.nodes@[k].next@[a]);
                                }
                            }
                            assert forall|a: int, b: int| 0 <= a < b < next.len() implies self.nodes@[#[trigger] next[a] as int].fragment@
                                != self.nodes@[#[trigger] next[b] as int].fragment@ by {
                                assert(next[a] == before.nodes@[k].next@[a]);
                                if k == parent && b == next.len() - 1 {
                                    assert(before.node_at(
                                        before.node_at(parent as int).next@[a] as int,
                                    ).fragment@ != fragment@);
                                } else {
                                    assert(next[b] == before.nodes@[k].next@[b]);
                                }
                            }
                        }
                    }
                    assert forall|k: int| 0 <= k < self.nodes@.len() implies #[trigger] self.entries_ok(
                        k,
                    ) by {
                        if k < n {
                            assert(before.entries_ok(k));
                            let entries = self.nodes@[k].handlers@;
                            assert forall|j: int| 0 <= j < entries.len() implies self.entry_ok(
                                #[trigger] entries[j],
                                k,
                                j,
                            ) by {
                                assert(before.entry_ok(before.nodes@[k].handlers@[j], k, j));
                            }
                        }
                    }
                    assert forall|j: int| 0 <= j < self.all.handlers@.len() implies self.entry_ok(
                        #[trigger] self.all.handlers@[j],
                        -1,
                        j,
                    ) by {
                        assert(before.entry_ok(before.all.handlers@[j], -1, j));
                    }
                    assert forall|stamp: int|
                        0 <= stamp < self.registered@.len() implies #[trigger] self.stamp_ok(stamp) by {
                        assert(before.stamp_ok(stamp));
                    }
                    assert(self.path_of(c as int) =~= before.path_of(parent as int).push(fragment@));
                    assert forall|k: int| 0 <= k < before.size() implies #[trigger] self.node_kept(
                        before,
                        k,
                    ) && self.node_at(k).handlers == before.node_at(k).handlers by {
                        let was = before.node_at(k);
                        let now = self.node_at(k);
                        assert(self.path_of(k) == before.path_of(k));
                        assert(now.handlers@.take(was.handlers@.len() as int) =~= was.handlers@);
                        assert(now.next@.take(was.next@.len() as int) =~= was.next@);
                    }
                }
                c
            },
        }
    }

    /// Registers `handler`: it gets the current stamp, and the stamp moves
    /// on. A handler for the catch-all pattern goes into the bucket; any
    /// other is stored at the node that the fragments of its pattern lead
    /// to, nodes being made on the way where they are missing.
    ///
    /// No pattern is refused.
    pub fn register(&mut self, handler: Handler<F>) -> (tree: &Self)
        requires
            old(self).wf(),
            old(self).next_order() < u32::MAX,
        ensures
            final(self).wf(),
            final(self)@ == old(self)@.push(handler),
            final(self).next_order() == old(self).next_order() + 1,
            final(self).stored() == old(self).stored() + 1,
            *tree == *final(self),
            // No node is gone, and every node is where and what it was.
            final(self).size() >= old(self).size(),
            forall|k: int|
                0 <= k < old(self).size() ==> #[trigger] final(self).node_kept(*old(self), k),
            // Nodes are made only on the way of the pattern, one behind the other.
            forall|k: int|
                old(self).size() <= k < final(self).size() ==> #[trigger] final(self).node_on_way(
                    k,
                    handler.path@,
                ) && final(self).node_at(k).next@.len() <= 1,
            // The catch-all handler goes to the end of the bucket, and the trie stays as it is.
            handler.path@ == star() ==> {
                &&& final(self).arena() == old(self).arena()
                &&& final(self).bucket().fragment == old(self).bucket().fragment
                &&& final(self).bucket().parameter == old(self).bucket().parameter
                &&& final(self).bucket().next == old(self).bucket().next
                &&& final(self).bucket().parent == old(self).bucket().parent
                &&& Self::appended(
                    old(self).bucket().handlers@,
                    final(self).bucket().handlers@,
                    old(self).next_order(),
                    handler,
                )
            },
            // Any other handler goes to the end of the node that its pattern leads to, and
            // to no other place.
            handler.path@ != star() ==> {
                &&& final(self).bucket() == old(self).bucket()
                &&& exists|t: int|
                    0 <= t < final(self).size() && #[trigger] final(self).path_of(t) == fragments(
                        handler.path@,
                    )
                &&& forall|k: int|
                    0 <= k < final(self).size() ==> #[trigger] final(self).holds_after(
                        *old(self),
                        k,
                        handler,
                    )
            },
    {
        let ghost before = *self;
        let ghost h = handler;
        if is_star(handler.path.as_str()) {
            let ghost j = self.all.handlers@.len() as int;
            self.all.handlers.push((self.order, Rc::new(handler)));
            proof {
                self.registered@ = before.registered@.push(h);
                self.slots@ = before.slots@.push((-1int, j));
            }
            self.order = self.order + 1;
            proof {
                assert(self.registered@.drop_last() =~= before.registered@);
                assert(self.all.handlers@.drop_last() =~= before.all.handlers@);
                self.lemma_stored(before, -1, j);
                assert forall|k: int| 0 <= k < before.size() implies #[trigger] self.node_kept(
                    before,
                    k,
                ) by {
                    let node = self.node_at(k);
                    assert(node.handlers@.take(node.handlers@.len() as int) =~= node.handlers@);
                    assert(node.next@.take(node.next@.len() as int) =~= node.next@);
                }
            }
            return self;
        }
        let parts = split_path(handler.path.as_str());
        let mut at: usize = 0;
        let mut i: usize = 1;
        proof {
            assert(self.link_ok(0));
            assert(self.path_of(0) =~= fragments(h.path@).take(0));
            assert(parts.deep_view().len() == parts@.len());
            assert forall|u: int| 1 <= u < parts@.len() implies (#[trigger] parts@[u])@ == fragments(
                h.path@,
            )[u - 1] by {
                assert(parts.deep_view()[u] == parts@[u]@);
            }
        }
        proof {
            assert forall|k: int| 0 <= k < before.size() implies #[trigger] self.node_kept(
                before,
                k,
            ) by {
                let node = self.node_at(k);
                assert(node.handlers@.take(node.handlers@.len() as int) =~= node.handlers@);
                assert(node.next@.take(node.next@.len() as int) =~= node.next@);
            }
        }
        while i < parts.len()
            invariant
                self.wf(),
                before.wf(),
                self@ == before@,
                self.next_order() == before.next_order(),
                self.bucket() == before.bucket(),
                before.size() <= self.size(),
                forall|k: int|
                    0 <= k < before.size() ==> #[trigger] self.node_kept(before, k) && self.node_at(
                        k,
                    ).handlers == before.node_at(k).handlers,
                forall|k: int|
                    before.size() <= k < self.size() ==> #[trigger] self.node_on_way(k, h.path@)
                        && self.node_at(k).handlers@.len() == 0 && self.node_at(k).next@.len() <= 1,
                self.size() == before.size() ==> forall|k: int|
                    0 <= k < before.size() ==> (#[trigger] self.node_at(k)).next == before.node_at(
                        k,
                    ).next,
                self.size() > before.size() ==> at == self.size() - 1 && self.node_at(
                    at as int,
                ).next@.len() == 0,
                at < self.size(),
                1 <= i <= parts.len(),
                parts@.len() == fragments(h.path@).len() + 1,
                forall|u: int|
                    1 <= u < parts@.len() ==> (#[trigger] parts@[u])@ == fragments(h.path@)[u - 1],
                self.path_of(at as int) == fragments(h.path@).take(i - 1),
            decreases parts.len() - i,
        {
            let ghost here = self.path_of(at as int);
            let ghost middle = *self;
            at = self.descend(at, parts[i].as_str());
            proof {
                assert(here.push(parts[i as int]@) =~= fragments(h.path@).take(i as int));
                assert forall|k: int| 0 <= k < before.size() implies #[trigger] self.node_kept(
                    before,
                    k,
                ) && self.node_at(k).handlers == before.node_at(k).handlers by {
                    assert(middle.node_kept(before, k));
                    assert(self.node_kept(middle, k));
                    if middle.size() == before.size() {
                        assert(middle.node_at(k).next == before.node_at(k).next);
                    } else {
                        assert(self.node_at(k).next == middle.node_at(k).next);
                    }
                    self.lemma_kept_on(before, middle, k);
                }
                assert forall|k: int| before.size() <= k < self.size() implies #[trigger] self.node_on_way(
                    k,
                    h.path@,
                ) && self.node_at(k).handlers@.len() == 0 && self.node_at(k).next@.len() <= 1 by {
                    if k < middle.size() {
                        assert(middle.node_on_way(k, h.path@));
                        assert(self.node_kept(middle, k));
                    } else {
                        assert(self.path_of(k) == fragments(h.path@).take(i as int));
                    }
                }
            }
            i = i + 1;
        }
        proof {
            assert(fragments(h.path@).take(parts.len() - 1) =~= fragments(h.path@));
        }
        let ghost middle = *self;
        let ghost j = self.nodes@[at as int].handlers@.len() as int;
        self.nodes[at].handlers.push((self.order, Rc::new(handler)));
        proof {
            self.registered@ = middle.registered@.push(h);
            self.slots@ = middle.slots@.push((at as int, j));
        }
        self.order = self.order + 1;
        proof {
            assert(self.registered@.drop_last() =~= middle.registered@);
            assert(self.nodes@[at as int].handlers@.drop_last() =~= middle.nodes@[at as int].handlers@);
            self.lemma_stored(middle, at as int, j);
            assert forall|k: int| 0 <= k < before.size() implies #[trigger] self.node_kept(
                before,
                k,
            ) by {
                assert(middle.node_kept(before, k));
                let was = middle.node_at(k);
                let now = self.node_at(k);
                assert(self.path_of(k) == middle.path_of(k));
                assert(now.handlers@.take(was.handlers@.len() as int) =~= was.handlers@);
                assert(now.next@.take(was.next@.len() as int) =~= was.next@);
                assert(self.node_kept(middle, k));
                self.lemma_kept_on(before, middle, k);
            }
            assert forall|k: int| before.size() <= k < self.size() implies #[trigger] self.node_on_way(
                k,
                h.path@,
            ) && self.node_at(k).next@.len() <= 1 by {
                assert(middle.node_on_way(k, h.path@));
                assert(self.path_of(k) == middle.path_of(k));
            }
            assert(self.path_of(at as int) == fragments(h.path@));
            assert forall|k: int| 0 <= k < self.size() implies #[trigger] self.holds_after(
                before,
                k,
                h,
            ) by {
                assert(self.path_of(k) == middle.path_of(k));
                if k < before.size() {
                    assert(middle.node_kept(before, k));
                    assert(middle.node_at(k).handlers == before.node_at(k).handlers);
                } else {
                    assert(middle.node_on_way(k, h.path@));
                    assert(middle.node_at(k).handlers@ =~= Seq::<PrioritizedHandler<F>>::empty());
                }
                if k != at {
                    if self.path_of(k) == fragments(h.path@) {
                        self.lemma_one_node_per_path(k, at as int);
                    }
                    assert(self.node_at(k).handlers@ =~= middle.node_at(k).handlers@);
                }
            }
        }
        self
    }

    /// Storing the next registration at the end of node `k` (of the bucket,
    /// for `k == -1`) keeps the tree well formed.
    proof fn lemma_stored(&self, before: Tree<F>, k: int, j: int)
        requires
            before.wf(),
            -1 <= k < before.nodes@.len(),
            self.order == before.order + 1,
            self.registered@.len() == before.registered@.len() + 1,
            self.registered@.drop_last() == before.registered@,
            self.slots@ == before.slots@.push((k, j)),
            self.lines@ == before.lines@,
            self.nodes@.len() == before.nodes@.len(),
            forall|x: int|
                0 <= x < before.nodes@.len() ==> (#[trigger] self.nodes@[x]).fragment
                    == before.nodes@[x].fragment && self.nodes@[x].parameter
                    == before.nodes@[x].parameter && self.nodes@[x].parent == before.nodes@[x].parent
                    && self.nodes@[x].next == before.nodes@[x].next,
            forall|x: int|
                0 <= x < before.nodes@.len() && x != k ==> (#[trigger] self.nodes@[x]).handlers
                    == before.nodes@[x].handlers,
            self.all.fragment == before.all.fragment,
            self.all.next == before.all.next,
            self.all.parent == before.all.parent,
            k != -1 ==> self.all.handlers == before.all.handlers,
            ({
                let entries = if k == -1 {
                    self.all.handlers@
                } else {
                    self.nodes@[k].handlers@
                };
                let old_entries = if k == -1 {
                    before.all.handlers@
                } else {
                    before.nodes@[k].handlers@
                };
                &&& j == old_entries.len()
                &&& entries.len() == j + 1
                &&& entries.drop_last() == old_entries
                &&& entries[j].0 == before.order
                &&& *entries[j].1 == self.registered@.last()
            }),
            k == -1 ==> self.registered@.last().path@ == star(),
            k != -1 ==> self.registered@.last().path@ != star() && fragments(
                self.registered@.last().path@,
            ) == before.path_of(k),
        ensures
            self.wf(),
            forall|x: int| 0 <= x < before.nodes@.len() ==> #[trigger] self.path_of(x) == before.path_of(x),
    {
        let n = before.nodes@.len() as int;
        lemma_held(before.nodes@, self.nodes@, k);
        assert forall|x: int| 0 <= x < n implies #[trigger] self.path_of(x) == before.path_of(x) by {
            assert(before.link_ok(x));
            assert forall|u: int| 0 <= u < before.lines@[x].len() implies self.nodes@[#[trigger] before.lines@[x][u]].fragment@
                == before.nodes@[before.lines@[x][u]].fragment@ by {
                assert(0 <= before.lines@[x][u] <= x);
            }
            assert(self.path_of(x) =~= before.path_of(x));
        }
        assert forall|x: int| 0 <= x < n implies #[trigger] self.link_ok(x) by {
            assert(before.link_ok(x));
            assert forall|t: int| 0 <= t < self.lines@[x].len() implies 0 <= #[trigger] self.lines@[x][t]
                <= x && self.lines@[self.lines@[x][t]] == self.lines@[x].take(t + 1) by {
                assert(0 <= before.lines@[x][t] <= x);
            }
            if x > 0 {
                let p = before.nodes@[x].parent->0 as int;
                assert(self.nodes@[p].next == before.nodes@[p].next);
            }
        }
        assert forall|x: int| 0 <= x < n implies #[trigger] self.children_ok(x) by {
            assert(before.children_ok(x));
            let next = self.nodes@[x].next@;
            assert forall|a: int| 0 <= a < next.len() implies x < #[trigger] next[a] < self.nodes@.len()
                && self.nodes@[next[a] as int].parent == Some(x as usize) by {
                assert(next[a] == before.nodes@[x].next@[a]);
            }
            assert forall|a: int, b: int| 0 <= a < b < next.len() implies self.nodes@[#[trigger] next[a] as int].fragment@
                != self.nodes@[#[trigger] next[b] as int].fragment@ by {
                assert(next[a] == before.nodes@[x].next@[a]);
                assert(next[b] == before.nodes@[x].next@[b]);
            }
        }
        assert forall|x: int| 0 <= x < n implies #[trigger] self.entries_ok(x) by {
            assert(before.entries_ok(x));
            let entries = self.nodes@[x].handlers@;
            assert forall|i: int| 0 <= i < entries.len() implies self.entry_ok(
                #[trigger] entries[i],
                x,
                i,
            ) by {
                if x == k && i == j {
                } else {
                    if x == k {
                        assert(entries[i] == entries.drop_last()[i]);
                    }
                    assert(before.entry_ok(before.nodes@[x].handlers@[i], x, i));
                    assert(self.registered@[entries[i].0 as int] == self.registered@.drop_last()[entries[i].0 as int]);
                }
            }
            assert forall|a: int, b: int| 0 <= a < b < entries.len() implies (#[trigger] entries[a]).0
                < (#[trigger] entries[b]).0 by {
                if x == k {
                    assert(entries[a] == entries.drop_last()[a]);
                    assert(before.entry_ok(before.nodes@[x].handlers@[a], x, a));
                    if b < j {
                        assert(entries[b] == entries.drop_last()[b]);
                    }
                }
            }
        }
        assert forall|a: int, b: int| 0 <= a < b < self.all.handlers@.len() implies (#[trigger] self.all.handlers@[a]).0
            < (#[trigger] self.all.handlers@[b]).0 by {
            if k == -1 {
                assert(self.all.handlers@[a] == self.all.handlers@.drop_last()[a]);
                assert(before.entry_ok(before.all.handlers@[a], -1, a));
                if b < j {
                    assert(self.all.handlers@[b] == self.all.handlers@.drop_last()[b]);
                }
            }
        }
        assert forall|i: int| 0 <= i < self.all.handlers@.len() implies self.entry_ok(
            #[trigger] self.all.handlers@[i],
            -1,
            i,
        ) by {
            if k == -1 && i == j {
            } else {
                if k == -1 {
                    assert(self.all.handlers@[i] == self.all.handlers@.drop_last()[i]);
                }
                assert(before.entry_ok(before.all.handlers@[i], -1, i));
                assert(self.registered@[self.all.handlers@[i].0 as int] == self.registered@.drop_last()[self.all.handlers@[i].0 as int]);
            }
        }
        assert forall|stamp: int| 0 <= stamp < self.registered@.len() implies #[trigger] self.stamp_ok(
            stamp,
        ) by {
            if stamp < before.registered@.len() {
                assert(before.stamp_ok(stamp));
                let (x, i) = before.slots@[stamp];
                if x == k {
                    if k == -1 {
                        assert(self.all.handlers@[i] == self.all.handlers@.drop_last()[i]);
                    } else {
                        assert(self.nodes@[k].handlers@[i] == self.nodes@[k].handlers@.drop_last()[i]);
                    }
                }
            }
        }
    }
}

} // verus!
