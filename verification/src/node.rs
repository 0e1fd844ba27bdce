//! The node arena and the low-level link primitives.
//!
//! A `Forest` is a growable arena of `Node`s; a `NodeRef` is a stable,
//! copyable handle (an arena index) naming exactly one node. Nodes are
//! created by `NodeRef::new` and never destroyed, so a handle stays valid
//! for the life of the forest.

use vstd::prelude::*;

verus! {

/// Which child slot of a node an operation addresses.
#[derive(Clone, Copy, Debug, PartialEq, Eq, Structural)]
pub enum Direction {
    Left,
    Right,
}

/// The mirror image of a direction.
pub open spec fn opp(d: Direction) -> Direction {
    match d {
        Direction::Left => Direction::Right,
        Direction::Right => Direction::Left,
    }
}

impl Direction {
    /// The mirror image of `self`.
    pub fn opposite(&self) -> (r: Direction)
        ensures
            r == opp(*self),
    {
        match self {
            Direction::Left => Direction::Right,
            Direction::Right => Direction::Left,
        }
    }
}

/// A stable handle to one node of a `Forest`: the node's arena index.
/// Equality of handles is identity of nodes.
#[derive(Clone, Copy, Debug, PartialEq, Eq, Structural)]
pub struct NodeRef {
    pub i: usize,
}

/// One element of a binary search tree: a value plus optional links to its
/// parent and its two children.
#[derive(Clone, Copy, Debug)]
pub struct Node {
    pub value: u64,
    pub parent: Option<NodeRef>,
    pub left: Option<NodeRef>,
    pub right: Option<NodeRef>,
}

/// The arena holding every node; its view is the sequence of nodes by index.
pub struct Forest {
    nodes: Vec<Node>,
}

impl View for Forest {
    type V = Seq<Node>;

    closed spec fn view(&self) -> Seq<Node> {
        self.nodes@
    }
}

/// The handle for arena slot `i`.
pub open spec fn nref(i: int) -> NodeRef {
    NodeRef { i: i as usize }
}

/// `r` names a slot inside the arena.
pub open spec fn valid(s: Seq<Node>, r: NodeRef) -> bool {
    r.i < s.len()
}

/// An optional link, if present, names a slot inside the arena.
pub open spec fn opt_valid(s: Seq<Node>, o: Option<NodeRef>) -> bool {
    o is Some ==> valid(s, o->0)
}

/// The `dir` child slot of a node value.
pub open spec fn slot(n: Node, dir: Direction) -> Option<NodeRef> {
    match dir {
        Direction::Left => n.left,
        Direction::Right => n.right,
    }
}

/// `n` with its `dir` child slot replaced by `c`.
pub open spec fn with_slot(n: Node, dir: Direction, c: Option<NodeRef>) -> Node {
    match dir {
        Direction::Left => Node { left: c, ..n },
        Direction::Right => Node { right: c, ..n },
    }
}

/// `n` with its parent slot replaced by `p`.
pub open spec fn with_parent(n: Node, p: Option<NodeRef>) -> Node {
    Node { parent: p, ..n }
}

impl Node {
    /// A fresh, unlinked node holding `value`.
    pub fn new(value: u64) -> (n: Node)
        ensures
            n == (Node { value, parent: None, left: None, right: None }),
    {
        Node { value, parent: None, left: None, right: None }
    }

    /// Read accessor for the `dir` child slot.
    pub fn child(&self, dir: Direction) -> (r: Option<NodeRef>)
        ensures
            r == slot(*self, dir),
    {
        match dir {
            Direction::Left => self.left,
            Direction::Right => self.right,
        }
    }

    /// Read accessor for the parent slot.
    pub fn parent(&self) -> (r: Option<NodeRef>)
        ensures
            r == self.parent,
    {
        self.parent
    }

    /// Replaces the `dir` child slot, returning the previous occupant.
    pub fn set_child(&mut self, dir: Direction, child: Option<NodeRef>) -> (r: Option<NodeRef>)
        ensures
            *final(self) == with_slot(*old(self), dir, child),
            r == slot(*old(self), dir),
    {
        match dir {
            Direction::Left => {
                let tmp = self.left;
                self.left = child;
                tmp
            },
            Direction::Right => {
                let tmp = self.right;
                self.right = child;
                tmp
            },
        }
    }
}

impl Forest {
    /// An empty arena.
    pub fn new() -> (f: Forest)
        ensures
            f@.len() == 0,
    {
        Forest { nodes: Vec::new() }
    }

    /// How many nodes the arena holds.
    pub fn len(&self) -> (n: usize)
        ensures
            n == self@.len(),
    {
        self.nodes.len()
    }
}

impl NodeRef {
    /// Allocates `node` in the arena and returns its handle.
    pub fn new(f: &mut Forest, node: Node) -> (r: NodeRef)
        ensures
            final(f)@ == old(f)@.push(node),
            r.i == old(f)@.len(),
            valid(final(f)@, r),
    {
        let i = f.nodes.len();
        f.nodes.push(node);
        NodeRef { i }
    }

    /// A copy of the node this handle names.
    pub fn node(self, f: &Forest) -> (n: Node)
        requires
            valid(f@, self),
        ensures
            n == f@[self.i as int],
    {
        f.nodes[self.i]
    }

    /// Read accessor for the `dir` child of the named node.
    pub fn child(self, f: &Forest, dir: Direction) -> (r: Option<NodeRef>)
        requires
            valid(f@, self),
        ensures
            r == slot(f@[self.i as int], dir),
    {
        match dir {
            Direction::Left => f.nodes[self.i].left,
            Direction::Right => f.nodes[self.i].right,
        }
    }

    /// Read accessor for the parent of the named node.
    pub fn parent(self, f: &Forest) -> (r: Option<NodeRef>)
        requires
            valid(f@, self),
        ensures
            r == f@[self.i as int].parent,
    {
        f.nodes[self.i].parent
    }

    /// Replaces the `dir` child slot of the named node, returning the
    /// previous occupant. Low-level: the new child's parent slot is not
    /// touched.
    pub fn set_child(self, f: &mut Forest, dir: Direction, child: Option<NodeRef>) -> (r: Option<
        NodeRef,
    >)
        requires
            valid(old(f)@, self),
        ensures
            final(f)@ == old(f)@.update(
                self.i as int,
                with_slot(old(f)@[self.i as int], dir, child),
            ),
            r == slot(old(f)@[self.i as int], dir),
    {
        let mut n = f.nodes[self.i];
        let r = n.set_child(dir, child);
        f.nodes.set(self.i, n);
        r
    }

    /// Replaces the parent slot of the named node, returning the previous
    /// occupant. Low-level: the new parent's child slots are not touched.
    pub fn set_parent(self, f: &mut Forest, parent: Option<NodeRef>) -> (r: Option<NodeRef>)
        requires
            valid(old(f)@, self),
        ensures
            final(f)@ == old(f)@.update(
                self.i as int,
                with_parent(old(f)@[self.i as int], parent),
            ),
            r == old(f)@[self.i as int].parent,
    {
        let mut n = f.nodes[self.i];
        let r = n.parent;
        n.parent = parent;
        f.nodes.set(self.i, n);
        r
    }

    /// Sets self's `dir` child slot to `child` and, if `child` is present,
    /// also points `child`'s parent slot back at self, keeping both ends of
    /// the edge consistent. Returns self's previous child and the child's
    /// previous parent.
    pub fn link_child(self, f: &mut Forest, dir: Direction, child: Option<NodeRef>) -> (r: (
        Option<NodeRef>,
        Option<NodeRef>,
    ))
        requires
            valid(old(f)@, self),
            opt_valid(old(f)@, child),
        ensures
            ({
                let s1 = old(f)@.update(
                    self.i as int,
                    with_slot(old(f)@[self.i as int], dir, child),
                );
                match child {
                    None => final(f)@ == s1 && r == (
                        slot(old(f)@[self.i as int], dir),
                        None::<NodeRef>,
                    ),
                    Some(c) => final(f)@ == s1.update(
                        c.i as int,
                        with_parent(s1[c.i as int], Some(self)),
                    ) && r == (slot(old(f)@[self.i as int], dir), s1[c.i as int].parent),
                }
            }),
    {
        let old_child = self.set_child(f, dir, child);
        let old_parent = match child {
            Some(c) => c.set_parent(f, Some(self)),
            None => None,
        };
        (old_child, old_parent)
    }

    /// Sets self's parent slot to `parent` and, if `parent` is present, also
    /// points `parent`'s `dir` child slot at self. Returns self's previous
    /// parent and the parent's previous `dir` child.
    pub fn link_parent(self, f: &mut Forest, dir: Direction, parent: Option<NodeRef>) -> (r: (
        Option<NodeRef>,
        Option<NodeRef>,
    ))
        requires
            valid(old(f)@, self),
            opt_valid(old(f)@, parent),
        ensures
            ({
                let s1 = old(f)@.update(
                    self.i as int,
                    with_parent(old(f)@[self.i as int], parent),
                );
                match parent {
                    None => final(f)@ == s1 && r == (
                        old(f)@[self.i as int].parent,
                        None::<NodeRef>,
                    ),
                    Some(p) => final(f)@ == s1.update(
                        p.i as int,
                        with_slot(s1[p.i as int], dir, Some(self)),
                    ) && r == (old(f)@[self.i as int].parent, slot(s1[p.i as int], dir)),
                }
            }),
    {
        let old_parent = self.set_parent(f, parent);
        let old_child = match parent {
            Some(p) => p.set_child(f, dir, Some(self)),
            None => None,
        };
        (old_parent, old_child)
    }

    /// True iff the named node has no parent, i.e. is the root of its tree.
    pub fn is_root(self, f: &Forest) -> (r: bool)
        requires
            valid(f@, self),
        ensures
            r == (f@[self.i as int].parent is None),
    {
        match self.parent(f) {
            None => true,
            Some(_) => false,
        }
    }

    /// Which child slot of the named node `child` occupies, if either.
    pub fn direction(self, f: &Forest, child: NodeRef) -> (r: Option<Direction>)
        requires
            valid(f@, self),
        ensures
            r == dir_spec(f@, self, child),
    {
        let n = self.node(f);
        if n.left == Some(child) {
            Some(Direction::Left)
        } else if n.right == Some(child) {
            Some(Direction::Right)
        } else {
            None
        }
    }

    /// The named node's parent together with the slot self occupies in it.
    pub fn parent_and_direction(self, f: &Forest) -> (r: Option<(NodeRef, Direction)>)
        requires
            valid(f@, self),
            opt_valid(f@, f@[self.i as int].parent),
        ensures
            r == pad_spec(f@, self),
    {
        match self.parent(f) {
            None => None,
            Some(p) => match p.direction(f, self) {
                Some(d) => Some((p, d)),
                None => None,
            },
        }
    }
}

impl NodeRef {
    /// Rotation around self in direction `d`: promotes self's `opp(d)` child
    /// into self's place and returns it, or returns `None` (and changes
    /// nothing) if that child is absent.
    fn rot_impl(self, f: &mut Forest, d: Direction) -> (r: Option<NodeRef>)
        requires
            crate::shape::wf(old(f)@),
            valid(old(f)@, self),
        ensures
            final(f)@ == crate::shape::rot_shape(old(f)@, self, d),
            r == slot(old(f)@[self.i as int], opp(d)),
            crate::shape::wf(final(f)@),
    {
        let e = d.opposite();
        match self.child(f, e) {
            None => None,
            Some(y) => {
                proof {
                    crate::shape::lemma_rot_context(f@, self, d);
                    crate::shape::lemma_rot_wf(f@, self, d);
                    assert(crate::shape::node_ok(f@, self.i as int));
                    assert(crate::shape::node_ok(f@, y.i as int));
                    assert(nref(self.i as int) == self);
                }
                let ghost s0 = f@;
                let (p, c) = self.link_parent(f, d, Some(y));
                self.link_child(f, e, c);
                match p {
                    Some(pp) => {
                        proof {
                            assert(f@[pp.i as int] == s0[pp.i as int]);
                            assert(s0[pp.i as int].left == Some(self) || s0[pp.i
                                as int].right == Some(self));
                        }
                        let pd = pp.direction(f, self).unwrap();
                        pp.link_child(f, pd, Some(y));
                    },
                    None => {
                        y.set_parent(f, None);
                    },
                }
                proof {
                    assert(f@ == crate::shape::rot_shape(s0, self, d));
                }
                Some(y)
            },
        }
    }

    /// Rotate right around self: promotes self's left child into self's
    /// place (self becomes its right child) and returns it, or `None` if
    /// there is no left child.
    pub fn rotr(self, f: &mut Forest) -> (r: Option<NodeRef>)
        requires
            crate::shape::wf(old(f)@),
            valid(old(f)@, self),
        ensures
            final(f)@ == crate::shape::rot_shape(old(f)@, self, Direction::Right),
            r == old(f)@[self.i as int].left,
            crate::shape::wf(final(f)@),
    {
        self.rot_impl(f, Direction::Right)
    }

    /// Rotate left around self: the mirror image of `rotr`.
    pub fn rotl(self, f: &mut Forest) -> (r: Option<NodeRef>)
        requires
            crate::shape::wf(old(f)@),
            valid(old(f)@, self),
        ensures
            final(f)@ == crate::shape::rot_shape(old(f)@, self, Direction::Left),
            r == old(f)@[self.i as int].right,
            crate::shape::wf(final(f)@),
    {
        self.rot_impl(f, Direction::Left)
    }

    /// Rotation dispatch: `Left` rotates left, `Right` rotates right.
    pub fn rot(self, f: &mut Forest, dir: Direction) -> (r: Option<NodeRef>)
        requires
            crate::shape::wf(old(f)@),
            valid(old(f)@, self),
        ensures
            final(f)@ == crate::shape::rot_shape(old(f)@, self, dir),
            r == slot(old(f)@[self.i as int], opp(dir)),
            crate::shape::wf(final(f)@),
    {
        match dir {
            Direction::Left => self.rotl(f),
            Direction::Right => self.rotr(f),
        }
    }
}

impl NodeRef {
    /// Splays the named node to the root of its tree by the classic
    /// two-rotations-per-step algorithm: zig-zig rotates the grandparent and
    /// then the parent, both away from the shared side; zig-zag rotates the
    /// parent and then the grandparent; a parent that is already the root
    /// takes a single zig rotation. The in-order node sequence of the
    /// affected tree, and every other tree, is unchanged.
    pub fn splay(self, f: &mut Forest)
        requires
            crate::shape::wf(old(f)@),
            valid(old(f)@, self),
        ensures
            crate::shape::wf(final(f)@),
            final(f)@.len() == old(f)@.len(),
            forall|k: int| 0 <= k < old(f)@.len() ==> final(f)@[k].value == old(f)@[k].value,
            crate::shape::is_root(final(f)@, self),
            crate::shape::is_root(old(f)@, self) ==> final(f)@ == old(f)@,
            forall|rr: NodeRef|
                crate::shape::is_root(old(f)@, rr) && #[trigger] crate::shape::tree_of(
                    old(f)@,
                    rr,
                ).contains(self) ==> crate::shape::tree_of(final(f)@, self)
                    == crate::shape::tree_of(old(f)@, rr),
            forall|rr: NodeRef|
                crate::shape::is_root(old(f)@, rr) && !(#[trigger] crate::shape::tree_of(
                    old(f)@,
                    rr,
                ).contains(self)) ==> crate::shape::is_root(final(f)@, rr)
                    && crate::shape::tree_of(final(f)@, rr) == crate::shape::tree_of(
                    old(f)@,
                    rr,
                ),
    {
        let ghost mut rt = crate::shape::root_of(old(f)@, self);
        proof {
            crate::shape::lemma_node_in_its_tree(f@, self);
            assert forall|rr: NodeRef|
                crate::shape::is_root(f@, rr) && #[trigger] crate::shape::tree_of(
                    f@,
                    rr,
                ).contains(self) implies crate::shape::tree_of(f@, rt) == crate::shape::tree_of(
                f@,
                rr,
            ) by {
                crate::shape::lemma_root_unique(f@, self, rr);
            }
        }
        loop
            invariant
                crate::shape::wf(f@),
                valid(f@, self),
                f@.len() == old(f)@.len(),
                forall|k: int| 0 <= k < old(f)@.len() ==> f@[k].value == old(f)@[k].value,
                crate::shape::is_root(old(f)@, self) ==> f@ == old(f)@,
                crate::shape::is_root(f@, rt),
                crate::shape::tree_of(f@, rt).contains(self),
                forall|rr: NodeRef|
                    crate::shape::is_root(old(f)@, rr) && #[trigger] crate::shape::tree_of(
                        old(f)@,
                        rr,
                    ).contains(self) ==> crate::shape::tree_of(f@, rt)
                        == crate::shape::tree_of(old(f)@, rr),
                forall|rr: NodeRef|
                    crate::shape::is_root(old(f)@, rr) && !(#[trigger] crate::shape::tree_of(
                        old(f)@,
                        rr,
                    ).contains(self)) ==> crate::shape::is_root(f@, rr)
                        && crate::shape::tree_of(f@, rr) == crate::shape::tree_of(
                        old(f)@,
                        rr,
                    ),
            ensures
                crate::shape::wf(f@),
                f@.len() == old(f)@.len(),
                forall|k: int| 0 <= k < old(f)@.len() ==> f@[k].value == old(f)@[k].value,
                crate::shape::is_root(old(f)@, self) ==> f@ == old(f)@,
                crate::shape::is_root(f@, self),
                crate::shape::is_root(f@, rt),
                crate::shape::tree_of(f@, rt).contains(self),
                rt == self,
                forall|rr: NodeRef|
                    crate::shape::is_root(old(f)@, rr) && #[trigger] crate::shape::tree_of(
                        old(f)@,
                        rr,
                    ).contains(self) ==> crate::shape::tree_of(f@, rt)
                        == crate::shape::tree_of(old(f)@, rr),
                forall|rr: NodeRef|
                    crate::shape::is_root(old(f)@, rr) && !(#[trigger] crate::shape::tree_of(
                        old(f)@,
                        rr,
                    ).contains(self)) ==> crate::shape::is_root(f@, rr)
                        && crate::shape::tree_of(f@, rr) == crate::shape::tree_of(
                        old(f)@,
                        rr,
                    ),
            decreases crate::shape::depth_of(f@, self),
        {
            proof {
                assert(crate::shape::node_ok(f@, self.i as int));
            }
            match self.parent_and_direction(f) {
                None => {
                    proof {
                        assert(f@[self.i as int].parent is None) by {
                            assert(crate::shape::node_ok(f@, self.i as int));
                            assert(nref(self.i as int) == self);
                        }
                        crate::shape::lemma_root_unique(f@, self, rt);
                        crate::shape::lemma_chain_root(f@, self);
                        rt = self;
                    }
                    break;
                },
                Some((p, dir1)) => {
                    proof {
                        assert(f@[self.i as int].parent == Some(p));
                        assert(valid(f@, p));
                        assert(slot(f@[p.i as int], dir1) == Some(self));
                        assert(crate::shape::node_ok(f@, p.i as int));
                        crate::shape::lemma_root_unique(f@, self, rt);
                        crate::shape::lemma_chain_step(f@, self);
                        assert(crate::shape::chain_of(f@, self).last()
                            == crate::shape::chain_of(f@, p).last());
                        crate::shape::lemma_node_in_its_tree(f@, p);
                        assert(crate::shape::tree_of(f@, rt).contains(p));
                    }
                    match p.parent_and_direction(f) {
                        Some((g, dir2)) => {
                            proof {
                                assert(f@[p.i as int].parent == Some(g));
                                assert(valid(f@, g));
                                assert(slot(f@[g.i as int], dir2) == Some(p));
                                crate::shape::lemma_chain_step(f@, p);
                                assert(crate::shape::chain_of(f@, p).last()
                                    == crate::shape::chain_of(f@, g).last());
                                crate::shape::lemma_node_in_its_tree(f@, g);
                                assert(crate::shape::tree_of(f@, rt).contains(g));
                            }
                            if dir1 == dir2 {
                                proof {
                                    crate::shape::lemma_splay_zigzig(f@, self, p, g, dir1);
                                    crate::shape::lemma_splay_rot_trees(
                                        f@,
                                        self,
                                        g,
                                        opp(dir1),
                                        rt,
                                    );
                                }
                                let _ = g.rot(f, dir1.opposite());
                                proof {
                                    rt = if rt == g {
                                        p
                                    } else {
                                        rt
                                    };
                                    crate::shape::lemma_splay_rot_trees(
                                        f@,
                                        self,
                                        p,
                                        opp(dir1),
                                        rt,
                                    );
                                }
                                let _ = p.rot(f, dir1.opposite());
                                proof {
                                    rt = if rt == p {
                                        self
                                    } else {
                                        rt
                                    };
                                }
                            } else {
                                proof {
                                    assert(dir2 == opp(dir1));
                                    crate::shape::lemma_splay_zigzag(f@, self, p, g, dir1, dir2);
                                    crate::shape::lemma_splay_rot_trees(f@, self, p, dir2, rt);
                                }
                                let _ = p.rot(f, dir2);
                                proof {
                                    rt = if rt == p {
                                        self
                                    } else {
                                        rt
                                    };
                                    crate::shape::lemma_splay_rot_trees(f@, self, g, dir1, rt);
                                }
                                let _ = g.rot(f, dir1);
                                proof {
                                    rt = if rt == g {
                                        self
                                    } else {
                                        rt
                                    };
                                }
                            }
                        },
                        None => {
                            proof {
                                assert(f@[p.i as int].parent is None) by {
                                    assert(crate::shape::node_ok(f@, p.i as int));
                                    assert(nref(p.i as int) == p);
                                }
                                crate::shape::lemma_splay_zig(f@, self, p, dir1);
                                crate::shape::lemma_splay_rot_trees(f@, self, p, opp(dir1), rt);
                            }
                            let _ = p.rot(f, dir1.opposite());
                            proof {
                                rt = if rt == p {
                                    self
                                } else {
                                    rt
                                };
                                crate::shape::lemma_root_unique(f@, self, rt);
                                crate::shape::lemma_chain_root(f@, self);
                                rt = self;
                            }
                            break;
                        },
                    }
                },
            }
        }
    }

    /// The splay loop over a caller-supplied parent policy: `lookup` stands
    /// in for `parent_and_direction`, so a wrapper such as a link-cut tree
    /// can stop the climb early (say, at a path boundary) by answering
    /// `None`. Whenever `lookup` answers, it must answer with the node's
    /// real parent and slot in the current forest. The in-order node
    /// sequence of the named node's tree, and every other tree, is
    /// unchanged; if the node's parent slot is empty nothing at all changes;
    /// and with a lookup that always answers the real parent this is exactly
    /// `splay`: the named node ends up the root of its tree.
    pub fn splay_with<L: Fn(&Forest, NodeRef) -> Option<(NodeRef, Direction)>>(
        self,
        f: &mut Forest,
        lookup: L,
    )
        requires
            crate::shape::wf(old(f)@),
            valid(old(f)@, self),
            forall|ff: &Forest, n: NodeRef|
                crate::shape::wf(ff@) && valid(ff@, n) ==> #[trigger] call_requires(
                    lookup,
                    (ff, n),
                ),
            forall|ff: &Forest, n: NodeRef, ret: Option<(NodeRef, Direction)>|
                #[trigger] call_ensures(lookup, (ff, n), ret) ==> (ret is Some ==> ret
                    == pad_spec(ff@, n)),
        ensures
            crate::shape::wf(final(f)@),
            final(f)@.len() == old(f)@.len(),
            forall|k: int| 0 <= k < old(f)@.len() ==> final(f)@[k].value == old(f)@[k].value,
            pad_spec(old(f)@, self) is None ==> final(f)@ == old(f)@,
            forall|rr: NodeRef|
                crate::shape::is_root(old(f)@, rr) && #[trigger] crate::shape::tree_of(
                    old(f)@,
                    rr,
                ).contains(self) ==> crate::shape::tree_of(
                    final(f)@,
                    crate::shape::root_of(final(f)@, self),
                ) == crate::shape::tree_of(old(f)@, rr),
            forall|rr: NodeRef|
                crate::shape::is_root(old(f)@, rr) && !(#[trigger] crate::shape::tree_of(
                    old(f)@,
                    rr,
                ).contains(self)) ==> crate::shape::is_root(final(f)@, rr)
                    && crate::shape::tree_of(final(f)@, rr) == crate::shape::tree_of(
                    old(f)@,
                    rr,
                ),
            (forall|ff: &Forest, n: NodeRef, ret: Option<(NodeRef, Direction)>|
                #[trigger] call_ensures(lookup, (ff, n), ret) ==> ret == pad_spec(ff@, n))
                ==> crate::shape::is_root(final(f)@, self),
    {
        let ghost mut rt = crate::shape::root_of(old(f)@, self);
        proof {
            crate::shape::lemma_node_in_its_tree(f@, self);
            assert forall|rr: NodeRef|
                crate::shape::is_root(f@, rr) && #[trigger] crate::shape::tree_of(
                    f@,
                    rr,
                ).contains(self) implies crate::shape::tree_of(f@, rt) == crate::shape::tree_of(
                f@,
                rr,
            ) by {
                crate::shape::lemma_root_unique(f@, self, rr);
            }
        }
        loop
            invariant
                crate::shape::wf(f@),
                valid(f@, self),
                f@.len() == old(f)@.len(),
                forall|k: int| 0 <= k < old(f)@.len() ==> f@[k].value == old(f)@[k].value,
                pad_spec(old(f)@, self) is None ==> f@ == old(f)@,
                crate::shape::is_root(f@, rt),
                crate::shape::tree_of(f@, rt).contains(self),
                forall|rr: NodeRef|
                    crate::shape::is_root(old(f)@, rr) && #[trigger] crate::shape::tree_of(
                        old(f)@,
                        rr,
                    ).contains(self) ==> crate::shape::tree_of(f@, rt)
                        == crate::shape::tree_of(old(f)@, rr),
                forall|rr: NodeRef|
                    crate::shape::is_root(old(f)@, rr) && !(#[trigger] crate::shape::tree_of(
                        old(f)@,
                        rr,
                    ).contains(self)) ==> crate::shape::is_root(f@, rr)
                        && crate::shape::tree_of(f@, rr) == crate::shape::tree_of(
                        old(f)@,
                        rr,
                    ),
                forall|ff: &Forest, n: NodeRef|
                    crate::shape::wf(ff@) && valid(ff@, n) ==> #[trigger] call_requires(
                        lookup,
                        (ff, n),
                    ),
                forall|ff: &Forest, n: NodeRef, ret: Option<(NodeRef, Direction)>|
                    #[trigger] call_ensures(lookup, (ff, n), ret) ==> (ret is Some ==> ret
                        == pad_spec(ff@, n)),
            ensures
                crate::shape::wf(f@),
                f@.len() == old(f)@.len(),
                forall|k: int| 0 <= k < old(f)@.len() ==> f@[k].value == old(f)@[k].value,
                pad_spec(old(f)@, self) is None ==> f@ == old(f)@,
                crate::shape::is_root(f@, rt),
                crate::shape::tree_of(f@, rt).contains(self),
                forall|rr: NodeRef|
                    crate::shape::is_root(old(f)@, rr) && #[trigger] crate::shape::tree_of(
                        old(f)@,
                        rr,
                    ).contains(self) ==> crate::shape::tree_of(f@, rt)
                        == crate::shape::tree_of(old(f)@, rr),
                forall|rr: NodeRef|
                    crate::shape::is_root(old(f)@, rr) && !(#[trigger] crate::shape::tree_of(
                        old(f)@,
                        rr,
                    ).contains(self)) ==> crate::shape::is_root(f@, rr)
                        && crate::shape::tree_of(f@, rr) == crate::shape::tree_of(
                        old(f)@,
                        rr,
                    ),
                (forall|ff: &Forest, n: NodeRef, ret: Option<(NodeRef, Direction)>|
                    #[trigger] call_ensures(lookup, (ff, n), ret) ==> ret == pad_spec(ff@, n))
                    ==> crate::shape::is_root(f@, self),
            decreases crate::shape::depth_of(f@, self),
        {
            proof {
                assert(crate::shape::node_ok(f@, self.i as int));
            }
            match lookup(&*f, self) {
                None => {
                    proof {
                        if forall|ff: &Forest, n: NodeRef, ret: Option<(NodeRef, Direction)>|
                            #[trigger] call_ensures(lookup, (ff, n), ret) ==> ret == pad_spec(
                                ff@,
                                n,
                            ) {
                            assert(pad_spec(f@, self) is None);
                            assert(f@[self.i as int].parent is None) by {
                                assert(crate::shape::node_ok(f@, self.i as int));
                                assert(nref(self.i as int) == self);
                            }
                            assert(crate::shape::is_root(f@, self));
                        }
                    }
                    break;
                },
                Some((p, dir1)) => {
                    proof {
                        assert(f@[self.i as int].parent == Some(p));
                        assert(pad_spec(old(f)@, self) is Some || f@ != old(f)@);
                        assert(valid(f@, p));
                        assert(slot(f@[p.i as int], dir1) == Some(self));
                        assert(crate::shape::node_ok(f@, p.i as int));
                        crate::shape::lemma_root_unique(f@, self, rt);
                        crate::shape::lemma_chain_step(f@, self);
                        assert(crate::shape::chain_of(f@, self).last()
                            == crate::shape::chain_of(f@, p).last());
                        crate::shape::lemma_node_in_its_tree(f@, p);
                        assert(crate::shape::tree_of(f@, rt).contains(p));
                    }
                    match lookup(&*f, p) {
                        Some((g, dir2)) => {
                            proof {
                                assert(f@[p.i as int].parent == Some(g));
                                assert(valid(f@, g));
                                assert(slot(f@[g.i as int], dir2) == Some(p));
                                crate::shape::lemma_chain_step(f@, p);
                                assert(crate::shape::chain_of(f@, p).last()
                                    == crate::shape::chain_of(f@, g).last());
                                crate::shape::lemma_node_in_its_tree(f@, g);
                                assert(crate::shape::tree_of(f@, rt).contains(g));
                            }
                            if dir1 == dir2 {
                                proof {
                                    crate::shape::lemma_splay_zigzig(f@, self, p, g, dir1);
                                    crate::shape::lemma_splay_rot_trees(
                                        f@,
                                        self,
                                        g,
                                        opp(dir1),
                                        rt,
                                    );
                                }
                                let _ = g.rot(f, dir1.opposite());
                                proof {
                                    rt = if rt == g {
                                        p
                                    } else {
                                        rt
                                    };
                                    crate::shape::lemma_splay_rot_trees(
                                        f@,
                                        self,
                                        p,
                                        opp(dir1),
                                        rt,
                                    );
                                }
                                let _ = p.rot(f, dir1.opposite());
                                proof {
                                    rt = if rt == p {
                                        self
                                    } else {
                                        rt
                                    };
                                }
                            } else {
                                proof {
                                    assert(dir2 == opp(dir1));
                                    crate::shape::lemma_splay_zigzag(f@, self, p, g, dir1, dir2);
                                    crate::shape::lemma_splay_rot_trees(f@, self, p, dir2, rt);
                                }
                                let _ = p.rot(f, dir2);
                                proof {
                                    rt = if rt == p {
                                        self
                                    } else {
                                        rt
                                    };
                                    crate::shape::lemma_splay_rot_trees(f@, self, g, dir1, rt);
                                }
                                let _ = g.rot(f, dir1);
                                proof {
                                    rt = if rt == g {
                                        self
                                    } else {
                                        rt
                                    };
                                }
                            }
                        },
                        None => {
                            let ghost s_pre = f@;
                            proof {
                                crate::shape::lemma_splay_zig(f@, self, p, dir1);
                                crate::shape::lemma_splay_rot_trees(f@, self, p, opp(dir1), rt);
                            }
                            let _ = p.rot(f, dir1.opposite());
                            proof {
                                rt = if rt == p {
                                    self
                                } else {
                                    rt
                                };
                                if forall|ff: &Forest, n: NodeRef, ret: Option<(
                                    NodeRef,
                                    Direction,
                                )>|
                                    #[trigger] call_ensures(lookup, (ff, n), ret) ==> ret
                                        == pad_spec(ff@, n) {
                                    assert(pad_spec(s_pre, p) is None);
                                    assert(s_pre[p.i as int].parent is None) by {
                                        assert(crate::shape::node_ok(s_pre, p.i as int));
                                        assert(nref(p.i as int) == p);
                                    }
                                    assert(crate::shape::is_root(f@, self));
                                }
                            }
                            break;
                        },
                    }
                },
            }
        }
        proof {
            crate::shape::lemma_root_unique(f@, self, rt);
        }
    }
}

impl NodeRef {
    /// Attaches a new leaf holding `value` as the `dir` child of self,
    /// splicing in front of self's existing `dir` subtree: the new node
    /// takes that subtree as its own `dir` child, its other child slot is
    /// empty, and no link of any other node changes. In the in-order
    /// sequence of self's subtree the new value lands immediately before
    /// self's value (side `Left`) or immediately after it (side `Right`).
    /// Used for building trees by hand; `SearchTree` does not call it.
    pub fn insert_val(self, f: &mut Forest, dir: Direction, value: u64) -> (r: NodeRef)
        requires
            crate::shape::wf(old(f)@),
            valid(old(f)@, self),
            old(f)@.len() < usize::MAX,
        ensures
            final(f)@ == crate::shape::splice_shape(old(f)@, self, dir, value),
            crate::shape::wf(final(f)@),
            r.i == old(f)@.len(),
            final(f)@.len() == old(f)@.len() + 1,
            forall|k: int| 0 <= k < old(f)@.len() ==> final(f)@[k].value == old(f)@[k].value,
            final(f)@[r.i as int].value == value,
            slot(final(f)@[self.i as int], dir) == Some(r),
            final(f)@[r.i as int].parent == Some(self),
            slot(final(f)@[r.i as int], dir) == slot(old(f)@[self.i as int], dir),
            slot(final(f)@[r.i as int], opp(dir)) is None,
            slot(final(f)@[self.i as int], opp(dir)) == slot(old(f)@[self.i as int], opp(dir)),
            final(f)@[self.i as int].parent == old(f)@[self.i as int].parent,
            match slot(old(f)@[self.i as int], dir) {
                Some(m) => final(f)@[m.i as int] == crate::node::with_parent(
                    old(f)@[m.i as int],
                    Some(r),
                ),
                None => true,
            },
            forall|q: NodeRef|
                valid(old(f)@, q) && q != self && (slot(old(f)@[self.i as int], dir) is Some
                    ==> q != slot(old(f)@[self.i as int], dir)->0) ==> final(f)@[(
                #[trigger] q.i) as int] == old(f)@[q.i as int],
            ({
                let s0 = old(f)@;
                let fu = crate::shape::sfuel(s0);
                &&& crate::shape::subtree(final(f)@, Some(self), crate::shape::sfuel(final(f)@))
                    is Some
                &&& crate::shape::subtree(
                    final(f)@,
                    Some(self),
                    crate::shape::sfuel(final(f)@),
                )->0 == (match dir {
                    Direction::Left => crate::shape::subtree(s0, s0[self.i as int].left, fu)->0
                        + seq![r, self] + crate::shape::subtree(
                        s0,
                        s0[self.i as int].right,
                        fu,
                    )->0,
                    Direction::Right => crate::shape::subtree(s0, s0[self.i as int].left, fu)->0
                        + seq![self, r] + crate::shape::subtree(
                        s0,
                        s0[self.i as int].right,
                        fu,
                    )->0,
                })
            }),
    {
        proof {
            crate::shape::lemma_splice(f@, self, dir, value);
            crate::shape::lemma_splice_values(f@, self, dir, value);
            assert(crate::shape::node_ok(f@, self.i as int));
        }
        let mut new_node = Node {
            value,
            parent: Some(self),
            left: None,
            right: None,
        };
        let child = self.child(f, dir);
        new_node.set_child(dir, child);
        let new_node_ref = NodeRef::new(f, new_node);
        match child {
            Some(c) => {
                c.set_parent(f, Some(new_node_ref));
            },
            None => {},
        }
        self.set_child(f, dir, Some(new_node_ref));
        new_node_ref
    }
}

/// Which child slot of `x` the handle `c` occupies, if either.
pub open spec fn dir_spec(s: Seq<Node>, x: NodeRef, c: NodeRef) -> Option<Direction> {
    if s[x.i as int].left == Some(c) {
        Some(Direction::Left)
    } else if s[x.i as int].right == Some(c) {
        Some(Direction::Right)
    } else {
        None
    }
}

/// The parent of `x` paired with the slot `x` occupies in it.
pub open spec fn pad_spec(s: Seq<Node>, x: NodeRef) -> Option<(NodeRef, Direction)> {
    match s[x.i as int].parent {
        None => None,
        Some(p) => match dir_spec(s, p, x) {
            None => None,
            Some(d) => Some((p, d)),
        },
    }
}

} // verus!
