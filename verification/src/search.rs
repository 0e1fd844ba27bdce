//! The ordered container: a splay tree of `u64` values with lookup and
//! splay-based insertion.
//!
//! The model of a `SearchTree` is the in-order sequence of values of the
//! tree hanging from its root. `insert` keeps that sequence sorted whenever
//! the inserted value is a duplicate or lies outside the range of the stored
//! values; `find` is complete exactly on sorted trees.

use vstd::prelude::*;

use crate::node::{valid, Direction, Forest, Node, NodeRef};
use crate::shape::{
    is_root, lemma_attach, lemma_push_isolated, lemma_subtree_defined, lemma_subtree_members,
    lemma_subtree_mono, node_ok, opt_tree, sfuel, sorted, subtree, tree_of, tree_values,
    values_of, wf,
};

verus! {

/// Where a missing key must attach relative to the node `find` stops at:
/// `Greater` says the found node is the greater one and belongs on the right
/// of a new node holding the key; `Less` says the mirror image; `Equal`
/// reports the key itself was found.
#[derive(Clone, Copy, Debug, PartialEq, Eq, Structural)]
pub enum RelativePosition {
    Less,
    Equal,
    Greater,
}

/// The in-order value sequence hanging from an optional link.
pub open spec fn opt_values(s: Seq<Node>, o: Option<NodeRef>) -> Seq<u64> {
    values_of(s, opt_tree(s, o))
}

/// Unfolds the in-order value sequence of a node into left part, own value,
/// right part.
pub proof fn lemma_values_unfold(s: Seq<Node>, t: NodeRef)
    requires
        wf(s),
        valid(s, t),
    ensures
        subtree(s, Some(t), sfuel(s)) is Some,
        subtree(s, s[t.i as int].left, sfuel(s)) is Some,
        subtree(s, s[t.i as int].right, sfuel(s)) is Some,
        opt_values(s, Some(t)) == opt_values(s, s[t.i as int].left) + seq![
            s[t.i as int].value,
        ] + opt_values(s, s[t.i as int].right),
{
    lemma_subtree_defined(s, Some(t));
    let fu = sfuel(s);
    let la = subtree(s, s[t.i as int].left, (fu - 1) as nat);
    let lb = subtree(s, s[t.i as int].right, (fu - 1) as nat);
    lemma_subtree_mono(s, s[t.i as int].left, (fu - 1) as nat, fu);
    lemma_subtree_mono(s, s[t.i as int].right, (fu - 1) as nat, fu);
    assert(opt_tree(s, Some(t)) == la->0 + seq![t] + lb->0);
    assert(opt_values(s, Some(t)) =~= opt_values(s, s[t.i as int].left) + seq![
        s[t.i as int].value,
    ] + opt_values(s, s[t.i as int].right));
}

/// Facts about a value sequence split as left part, pivot, right part: what
/// sortedness of the whole says about the parts, and how membership
/// distributes.
pub proof fn lemma_split_facts(a: Seq<u64>, v: u64, b: Seq<u64>)
    ensures
        ({
            let w = a + seq![v] + b;
            &&& (sorted(w) ==> sorted(a) && sorted(b) && (forall|k: int|
                0 <= k < a.len() ==> #[trigger] a[k] < v) && (forall|k: int|
                0 <= k < b.len() ==> #[trigger] b[k] > v))
            &&& (forall|u: u64|
                #[trigger] w.contains(u) <==> (a.contains(u) || u == v || b.contains(u)))
            &&& w.contains(v)
        }),
{
    let w = a + seq![v] + b;
    assert(w[a.len() as int] == v);
    if sorted(w) {
        assert forall|k: int| 0 <= k < a.len() implies #[trigger] a[k] < v by {
            assert(w[k] == a[k]);
        }
        assert forall|k: int| 0 <= k < b.len() implies #[trigger] b[k] > v by {
            assert(w[a.len() + 1 + k] == b[k]);
        }
        assert forall|x: int, y: int| 0 <= x < y < a.len() implies a[x] < a[y] by {
            assert(w[x] == a[x] && w[y] == a[y]);
        }
        assert forall|x: int, y: int| 0 <= x < y < b.len() implies b[x] < b[y] by {
            assert(w[a.len() + 1 + x] == b[x] && w[a.len() + 1 + y] == b[y]);
        }
    }
    assert forall|u: u64| #[trigger] w.contains(u) implies (a.contains(u) || u == v
        || b.contains(u)) by {
        let k = choose|k: int| 0 <= k < w.len() && w[k] == u;
        if k < a.len() {
            assert(a[k] == u);
        } else if k > a.len() {
            assert(b[k - a.len() - 1] == u);
        }
    }
    assert forall|u: u64| (a.contains(u) || u == v || b.contains(u)) implies #[trigger] w.contains(
        u,
    ) by {
        if a.contains(u) {
            let k = choose|k: int| 0 <= k < a.len() && a[k] == u;
            assert(w[k] == u);
        } else if b.contains(u) {
            let k = choose|k: int| 0 <= k < b.len() && b[k] == u;
            assert(w[a.len() + 1 + k] == u);
        }
    }
}

/// An ordered container of `u64` values held as a splay tree.
pub struct SearchTree {
    forest: Forest,
    root: Option<NodeRef>,
}

impl View for SearchTree {
    type V = Seq<u64>;

    /// The in-order sequence of stored values.
    closed spec fn view(&self) -> Seq<u64> {
        match self.root {
            None => Seq::empty(),
            Some(r) => tree_values(self.forest@, r),
        }
    }
}

impl SearchTree {
    /// Structural well-formedness: consistent, acyclic links, and a root
    /// that really is the root of its tree.
    pub closed spec fn inv(&self) -> bool {
        &&& wf(self.forest@)
        &&& match self.root {
            None => true,
            Some(r) => valid(self.forest@, r) && is_root(self.forest@, r),
        }
    }

    /// The value held by the node `n` names.
    pub closed spec fn node_value(&self, n: NodeRef) -> u64 {
        self.forest@[n.i as int].value
    }

    /// `n` names a node of this tree.
    pub closed spec fn node_in_tree(&self, n: NodeRef) -> bool {
        match self.root {
            None => false,
            Some(r) => tree_of(self.forest@, r).contains(n),
        }
    }

    /// The root node holds `v`.
    pub closed spec fn root_holds(&self, v: u64) -> bool {
        match self.root {
            None => false,
            Some(r) => self.forest@[r.i as int].value == v,
        }
    }

    /// The arena the tree lives in, node by node.
    pub closed spec fn arena(&self) -> Seq<Node> {
        self.forest@
    }

    /// The handle of the root node, if any.
    pub closed spec fn spec_root(&self) -> Option<NodeRef> {
        self.root
    }

    /// How many nodes the arena holds (nodes are never destroyed).
    pub closed spec fn node_count(&self) -> nat {
        self.forest@.len()
    }

    /// The named node's `d` child slot is empty.
    pub closed spec fn node_lacks_child(&self, n: NodeRef, d: Direction) -> bool {
        crate::node::slot(self.forest@[n.i as int], d) is None
    }

    /// The value held by the root's `d` child, if the tree has a root with
    /// such a child.
    pub closed spec fn root_child_holds(&self, d: Direction) -> Option<u64> {
        match self.root {
            None => None,
            Some(rt) => match crate::node::slot(self.forest@[rt.i as int], d) {
                None => None,
                Some(c) => Some(self.forest@[c.i as int].value),
            },
        }
    }

    /// The root's `d` child slot is empty (false on an empty tree).
    pub closed spec fn root_lacks_child(&self, d: Direction) -> bool {
        match self.root {
            None => false,
            Some(rt) => crate::node::slot(self.forest@[rt.i as int], d) is None,
        }
    }

    /// How the accessors fit together: the arena is well-formed, the root
    /// handle really is a root there, and the view is the in-order value
    /// sequence of its tree.
    pub proof fn lemma_view_is_root_tree(&self)
        requires
            self.inv(),
        ensures
            wf(self.arena()),
            match self.spec_root() {
                None => self@ == Seq::<u64>::empty(),
                Some(rt) => valid(self.arena(), rt) && is_root(self.arena(), rt) && self@
                    == tree_values(self.arena(), rt),
            },
    {
    }

    /// An empty tree.
    pub fn new() -> (t: SearchTree)
        ensures
            t.inv(),
            t@ == Seq::<u64>::empty(),
    {
        SearchTree { forest: Forest::new(), root: None }
    }

    /// The current root handle, if any.
    pub fn root(&self) -> (r: Option<NodeRef>)
        requires
            self.inv(),
        ensures
            r == self.spec_root(),
            r is Some <==> self@.len() > 0,
            match r {
                None => true,
                Some(n) => self.node_in_tree(n) && self.root_holds(self.node_value(n)),
            },
    {
        proof {
            if self.root is Some {
                let rt = self.root->0;
                lemma_subtree_defined(self.forest@, Some(rt));
                lemma_subtree_members(self.forest@, Some(rt), sfuel(self.forest@));
                assert(tree_of(self.forest@, rt).contains(rt));
                assert(self@.len() == tree_of(self.forest@, rt).len());
            }
        }
        self.root
    }

    /// Read access to the arena the tree lives in, for rendering and tests.
    pub fn forest(&self) -> (r: &Forest)
        ensures
            r@ == self.arena(),
    {
        &self.forest
    }

    /// Walks from the root comparing `key` with each node: `Equal` at a node
    /// holding `key`; at a leaf edge, the relative position a new node
    /// holding `key` would take. `None` iff the tree is empty. On a sorted
    /// tree the walk finds `key` exactly when it is present.
    #[verifier::loop_isolation(false)]
    pub fn find(&self, key: u64) -> (r: Option<(NodeRef, RelativePosition)>)
        requires
            self.inv(),
        ensures
            r is None <==> self@.len() == 0,
            match r {
                None => true,
                Some((n, pos)) => {
                    &&& self.node_in_tree(n)
                    &&& self@.contains(self.node_value(n))
                    &&& (pos == RelativePosition::Equal <==> self.node_value(n) == key)
                    &&& (pos == RelativePosition::Greater ==> self.node_value(n) > key
                        && self.node_lacks_child(n, Direction::Left))
                    &&& (pos == RelativePosition::Less ==> self.node_value(n) < key
                        && self.node_lacks_child(n, Direction::Right))
                    &&& (sorted(self@) ==> (self@.contains(key) <==> pos
                        == RelativePosition::Equal))
                },
            },
    {
        match self.root {
            None => {
                proof {
                    assert(self@.len() == 0);
                }
                None
            },
            Some(root) => {
                let ghost s = self.forest@;
                proof {
                    lemma_subtree_defined(s, Some(root));
                    lemma_subtree_members(s, Some(root), sfuel(s));
                    assert(tree_of(s, root).contains(root));
                    assert(self@.len() > 0) by {
                        assert(tree_of(s, root).len() >= 1);
                    }
                }
                let mut cur = root;
                loop
                    invariant
                        valid(s, cur),
                        tree_of(s, root).contains(cur),
                        subtree(s, Some(cur), sfuel(s)) is Some,
                        sorted(self@) ==> sorted(opt_values(s, Some(cur))),
                        sorted(self@) ==> (self@.contains(key) <==> opt_values(
                            s,
                            Some(cur),
                        ).contains(key)),
                    decreases subtree(s, Some(cur), sfuel(s))->0.len(),
                {
                    proof {
                        lemma_values_unfold(s, cur);
                        lemma_split_facts(
                            opt_values(s, s[cur.i as int].left),
                            s[cur.i as int].value,
                            opt_values(s, s[cur.i as int].right),
                        );
                        lemma_subtree_members(s, Some(cur), sfuel(s));
                        lemma_subtree_members(s, Some(root), sfuel(s));
                        assert(node_ok(s, cur.i as int));
                    }
                    let n = cur.node(&self.forest);
                    if key == n.value {
                        proof {
                            assert(opt_values(s, Some(cur)).contains(key));
                            assert(self@.contains(self.node_value(cur))) by {
                                assert(tree_values(s, root)[choose|k: int|
                                    0 <= k < tree_of(s, root).len() && tree_of(s, root)[k]
                                        == cur] == self.node_value(cur));
                            }
                        }
                        return Some((cur, RelativePosition::Equal));
                    } else if key < n.value {
                        match n.left {
                            Some(l) => {
                                proof {
                                    assert(subtree(s, Some(cur), sfuel(s))->0.contains(l));
                                    assert(l != cur) by {
                                        if l == cur {
                                            assert(crate::node::nref(cur.i as int) == cur);
                                            assert(s[cur.i as int].parent == Some(cur));
                                            crate::shape::lemma_chain_step(s, cur);
                                            assert(crate::shape::chain_of(s, cur) == seq![cur]
                                                + crate::shape::chain_of(s, cur));
                                        }
                                    }
                                    assert(subtree(s, Some(l), sfuel(s))->0.len() < subtree(
                                        s,
                                        Some(cur),
                                        sfuel(s),
                                    )->0.len());
                                    assert(tree_of(s, root).contains(l)) by {
                                        assert(subtree(s, Some(cur), sfuel(s))->0.to_set()
                                            <= tree_of(s, root).to_set());
                                        assert(subtree(
                                            s,
                                            Some(cur),
                                            sfuel(s),
                                        )->0.to_set().contains(l));
                                        assert(tree_of(s, root).to_set().contains(l));
                                    }
                                    lemma_subtree_mono(
                                        s,
                                        Some(l),
                                        (sfuel(s) - 1) as nat,
                                        sfuel(s),
                                    );
                                }
                                cur = l;
                            },
                            None => {
                                proof {
                                    assert(opt_values(s, s[cur.i as int].left)
                                        =~= Seq::<u64>::empty());
                                    assert(self@.contains(self.node_value(cur))) by {
                                        assert(tree_values(s, root)[choose|k: int|
                                            0 <= k < tree_of(s, root).len() && tree_of(
                                                s,
                                                root,
                                            )[k] == cur] == self.node_value(cur));
                                    }
                                }
                                return Some((cur, RelativePosition::Greater));
                            },
                        }
                    } else {
                        match n.right {
                            Some(rr) => {
                                proof {
                                    assert(subtree(s, Some(cur), sfuel(s))->0.contains(rr));
                                    assert(rr != cur) by {
                                        if rr == cur {
                                            assert(crate::node::nref(cur.i as int) == cur);
                                            assert(s[cur.i as int].parent == Some(cur));
                                            crate::shape::lemma_chain_step(s, cur);
                                            assert(crate::shape::chain_of(s, cur) == seq![cur]
                                                + crate::shape::chain_of(s, cur));
                                        }
                                    }
                                    assert(subtree(s, Some(rr), sfuel(s))->0.len() < subtree(
                                        s,
                                        Some(cur),
                                        sfuel(s),
                                    )->0.len());
                                    assert(tree_of(s, root).contains(rr)) by {
                                        assert(subtree(s, Some(cur), sfuel(s))->0.to_set()
                                            <= tree_of(s, root).to_set());
                                        assert(subtree(
                                            s,
                                            Some(cur),
                                            sfuel(s),
                                        )->0.to_set().contains(rr));
                                        assert(tree_of(s, root).to_set().contains(rr));
                                    }
                                    lemma_subtree_mono(
                                        s,
                                        Some(rr),
                                        (sfuel(s) - 1) as nat,
                                        sfuel(s),
                                    );
                                }
                                cur = rr;
                            },
                            None => {
                                proof {
                                    assert(opt_values(s, s[cur.i as int].right)
                                        =~= Seq::<u64>::empty());
                                    assert(self@.contains(self.node_value(cur))) by {
                                        assert(tree_values(s, root)[choose|k: int|
                                            0 <= k < tree_of(s, root).len() && tree_of(
                                                s,
                                                root,
                                            )[k] == cur] == self.node_value(cur));
                                    }
                                }
                                return Some((cur, RelativePosition::Less));
                            },
                        }
                    }
                }
            },
        }
    }

    /// Inserts `value`: `true` if it was added, `false` if an equal value
    /// was already at hand (the tree unchanged). Either way the node holding
    /// `value` is splayed to the root. A miss hangs the whole old tree under
    /// the new root on the side `find` reported, so the value sequence gains
    /// `value` at one end; it stays sorted whenever the new value is a
    /// duplicate or lies outside the stored range.
    pub fn insert(&mut self, value: u64) -> (r: bool)
        requires
            old(self).inv(),
        ensures
            final(self).inv(),
            final(self).root_holds(value),
            !r ==> final(self)@ == old(self)@ && final(self)@.contains(value),
            r ==> final(self)@ == old(self)@ + seq![value] || final(self)@ == seq![value] + old(
                self,
            )@,
            r ==> final(self)@.len() == old(self)@.len() + 1,
            old(self)@.len() == 0 ==> r && final(self)@ == seq![value],
            !r ==> final(self).node_count() == old(self).node_count(),
            r ==> final(self).node_count() == old(self).node_count() + 1,
            r && old(self)@.len() > 0 ==> ({
                ||| ((match final(self).root_child_holds(Direction::Left) {
                    Some(w) => w < value,
                    None => false,
                }) && final(self).root_lacks_child(Direction::Right) && final(self)@ == old(
                    self,
                )@ + seq![value])
                ||| ((match final(self).root_child_holds(Direction::Right) {
                    Some(w) => w > value,
                    None => false,
                }) && final(self).root_lacks_child(Direction::Left) && final(self)@ == seq![
                    value,
                ] + old(self)@)
            }),
            sorted(old(self)@) ==> (r <==> !old(self)@.contains(value)),
            (forall|k: int| 0 <= k < old(self)@.len() ==> #[trigger] old(self)@[k] < value)
                ==> r && final(self)@ == old(self)@ + seq![value],
            (forall|k: int| 0 <= k < old(self)@.len() ==> #[trigger] old(self)@[k] > value)
                ==> r && final(self)@ == seq![value] + old(self)@,
            sorted(old(self)@) && (old(self)@.contains(value) || (forall|k: int|
                0 <= k < old(self)@.len() ==> #[trigger] old(self)@[k] < value) || (forall|
                k: int,
            |
                0 <= k < old(self)@.len() ==> #[trigger] old(self)@[k] > value)) ==> sorted(
                final(self)@,
            ),
    {
        let found = self.find(value);
        match found {
            None => {
                let ghost s0 = self.forest@;
                let n = NodeRef::new(&mut self.forest, Node::new(value));
                let fl = self.forest.len();
                proof {
                    assert(self.forest@.len() <= usize::MAX) by {
                        assert(fl == self.forest@.len());
                    }
                    lemma_push_isolated(s0, value);
                }
                self.root = Some(n);
                proof {
                    assert(self@ =~= seq![value]);
                    assert(old(self)@ + seq![value] =~= seq![value]);
                }
                true
            },
            Some((n, pos)) => {
                let ghost s0 = self.forest@;
                let ghost oldroot = self.root->0;
                proof {
                    lemma_subtree_defined(s0, Some(oldroot));
                    lemma_subtree_members(s0, Some(oldroot), sfuel(s0));
                    assert(tree_of(s0, oldroot).contains(n));
                    assert(valid(s0, n)) by {
                        let k = choose|k: int|
                            0 <= k < tree_of(s0, oldroot).len() && tree_of(s0, oldroot)[k] == n;
                        assert(valid(s0, tree_of(s0, oldroot)[k]));
                    }
                }
                n.splay(&mut self.forest);
                proof {
                    assert(crate::shape::tree_of(self.forest@, n) == crate::shape::tree_of(
                        s0,
                        oldroot,
                    ));
                    assert(values_of(self.forest@, crate::shape::tree_of(self.forest@, n))
                        =~= values_of(s0, crate::shape::tree_of(s0, oldroot)));
                }
                match pos {
                    RelativePosition::Equal => {
                        self.root = Some(n);
                        proof {
                            assert(self@ == old(self)@);
                        }
                        false
                    },
                    RelativePosition::Less => {
                        self.attach(n, Direction::Left, value);
                        proof {
                            assert(self@ == old(self)@ + seq![value]);
                            if sorted(old(self)@) && (forall|k: int|
                                0 <= k < old(self)@.len() ==> #[trigger] old(self)@[k]
                                    < value) {
                                assert(sorted(self@)) by {
                                    assert forall|a: int, b: int|
                                        0 <= a < b < self@.len() implies self@[a] < self@[b] by {
                                        if b < old(self)@.len() {
                                            assert(self@[a] == old(self)@[a] && self@[b] == old(
                                                self,
                                            )@[b]);
                                        } else {
                                            assert(self@[b] == value);
                                            assert(self@[a] == old(self)@[a]);
                                        }
                                    }
                                }
                            }
                            if sorted(old(self)@) {
                                // a sorted tree with value absent and the walk
                                // ending on the Less side means value exceeds
                                // every stored value
                                assert(!old(self)@.contains(value));
                            }
                        }
                        true
                    },
                    RelativePosition::Greater => {
                        self.attach(n, Direction::Right, value);
                        proof {
                            assert(self@ == seq![value] + old(self)@);
                            if sorted(old(self)@) && (forall|k: int|
                                0 <= k < old(self)@.len() ==> #[trigger] old(self)@[k]
                                    > value) {
                                assert(sorted(self@)) by {
                                    assert forall|a: int, b: int|
                                        0 <= a < b < self@.len() implies self@[a] < self@[b] by {
                                        if a > 0 {
                                            assert(self@[a] == old(self)@[a - 1] && self@[b]
                                                == old(self)@[b - 1]);
                                        } else {
                                            assert(self@[a] == value);
                                            assert(self@[b] == old(self)@[b - 1]);
                                        }
                                    }
                                }
                            }
                            if sorted(old(self)@) {
                                assert(!old(self)@.contains(value));
                            }
                        }
                        true
                    },
                }
            },
        }
    }

    /// Hangs the current tree, freshly splayed so that `n` is its root,
    /// under a new root node holding `value` on side `d`.
    fn attach(&mut self, n: NodeRef, d: Direction, value: u64)
        requires
            wf(old(self).forest@),
            is_root(old(self).forest@, n),
        ensures
            final(self).inv(),
            final(self).root_holds(value),
            final(self)@ == (match d {
                Direction::Left => tree_values(old(self).forest@, n) + seq![value],
                Direction::Right => seq![value] + tree_values(old(self).forest@, n),
            }),
            final(self).node_count() == old(self).forest@.len() + 1,
            final(self).spec_root() is Some,
            crate::node::slot(
                final(self).arena()[final(self).spec_root()->0.i as int],
                d,
            ) == Some(n),
            crate::node::slot(
                final(self).arena()[final(self).spec_root()->0.i as int],
                crate::node::opp(d),
            ) is None,
            final(self).arena()[n.i as int].value == old(self).forest@[n.i as int].value,
    {
        let ghost s0 = self.forest@;
        let mut new_node = Node::new(value);
        new_node.set_child(d, Some(n));
        let nn = NodeRef::new(&mut self.forest, new_node);
        let fl = self.forest.len();
        proof {
            assert(s0.len() < usize::MAX) by {
                assert(fl == self.forest@.len());
            }
            lemma_attach(s0, n, d, value);
        }
        n.set_parent(&mut self.forest, Some(nn));
        self.root = Some(nn);
        proof {
            assert(self.forest@[nn.i as int] == crate::node::with_slot(
                (Node { value, parent: None, left: None, right: None }),
                d,
                Some(n),
            ));
            assert(crate::node::slot(self.forest@[nn.i as int], d) == Some(n)
                && crate::node::slot(self.forest@[nn.i as int], crate::node::opp(d)) is None)
                by {
                match d {
                    Direction::Left => {},
                    Direction::Right => {},
                }
            }
            assert(self.forest@ == s0.push(
                crate::node::with_slot(
                    (Node { value, parent: None, left: None, right: None }),
                    d,
                    Some(n),
                ),
            ).update(
                n.i as int,
                crate::node::with_parent(
                    s0.push(
                        crate::node::with_slot(
                            (Node { value, parent: None, left: None, right: None }),
                            d,
                            Some(n),
                        ),
                    )[n.i as int],
                    Some(nn),
                ),
            ));
        }
    }

}

/// Appends the in-order values of the subtree hanging from `o` to `out`.
fn in_order_rec(f: &Forest, o: Option<NodeRef>, out: &mut Vec<u64>, fuel: usize)
    requires
        subtree(f@, o, fuel as nat) is Some,
    ensures
        final(out)@ == old(out)@ + values_of(f@, subtree(f@, o, fuel as nat)->0),
    decreases fuel,
{
    match o {
        None => {
            proof {
                assert(out@ =~= out@ + values_of(f@, subtree(f@, o, fuel as nat)->0));
            }
        },
        Some(r) => {
            let n = r.node(f);
            in_order_rec(f, n.left, out, fuel - 1);
            out.push(n.value);
            in_order_rec(f, n.right, out, fuel - 1);
            proof {
                let la = subtree(f@, n.left, (fuel - 1) as nat)->0;
                let lb = subtree(f@, n.right, (fuel - 1) as nat)->0;
                assert(subtree(f@, o, fuel as nat)->0 == la + seq![r] + lb);
                assert(out@ =~= old(out)@ + values_of(f@, subtree(f@, o, fuel as nat)->0));
            }
        },
    }
}

impl Forest {
    /// The in-order value sequence of the subtree hanging from `r`.
    pub fn in_order_from(&self, r: NodeRef) -> (v: Vec<u64>)
        requires
            wf(self@),
            valid(self@, r),
        ensures
            v@ == values_of(self@, tree_of(self@, r)),
    {
        let mut out: Vec<u64> = Vec::new();
        proof {
            crate::shape::lemma_subtree_defined_at(self@, r);
            lemma_subtree_mono(
                self@,
                Some(r),
                (self@.len() - crate::shape::depth_of(self@, r)) as nat,
                self@.len() as nat,
            );
            lemma_subtree_mono(self@, Some(r), self@.len() as nat, sfuel(self@));
        }
        let fuel = self.len();
        in_order_rec(self, Some(r), &mut out, fuel);
        out
    }
}

impl SearchTree {
    /// The in-order sequence of all stored values, smallest first whenever
    /// the tree is sorted.
    pub fn in_order(&self) -> (r: Vec<u64>)
        requires
            self.inv(),
        ensures
            r@ == self@,
    {
        match self.root {
            None => {
                let out: Vec<u64> = Vec::new();
                proof {
                    assert(out@ =~= self@);
                }
                out
            },
            Some(rt) => self.forest.in_order_from(rt),
        }
    }
}

} // verus!
