//! A minimal link-cut scaffold: it reuses the splay engine to pull a node to
//! the root of its local tree.
//!
//! A complete link-cut tree would track preferred children and path-parent
//! pointers on top of this; none of that exists here, so `expose` promises
//! only local-root status, not any dynamic-connectivity semantics.

use vstd::prelude::*;

use crate::node::{valid, Forest, NodeRef};
use crate::shape::{is_root, tree_of, wf};

verus! {

/// The scaffold: it owns the arena its nodes live in.
pub struct LinkCutTree {
    pub forest: Forest,
}

impl LinkCutTree {
    /// An empty structure with an empty arena.
    pub fn new() -> (t: LinkCutTree)
        ensures
            t.forest@.len() == 0,
            wf(t.forest@),
    {
        LinkCutTree { forest: Forest::new() }
    }

    /// Pulls `node` to the root of its local tree by splaying; the in-order
    /// node sequence of that tree, and every other tree, is unchanged.
    pub fn expose(&mut self, node: NodeRef)
        requires
            wf(old(self).forest@),
            valid(old(self).forest@, node),
        ensures
            wf(final(self).forest@),
            final(self).forest@.len() == old(self).forest@.len(),
            forall|k: int|
                0 <= k < old(self).forest@.len() ==> final(self).forest@[k].value == old(
                    self,
                ).forest@[k].value,
            is_root(final(self).forest@, node),
            forall|rr: NodeRef|
                is_root(old(self).forest@, rr) && #[trigger] tree_of(
                    old(self).forest@,
                    rr,
                ).contains(node) ==> tree_of(final(self).forest@, node) == tree_of(
                    old(self).forest@,
                    rr,
                ),
            forall|rr: NodeRef|
                is_root(old(self).forest@, rr) && !(#[trigger] tree_of(
                    old(self).forest@,
                    rr,
                ).contains(node)) ==> is_root(final(self).forest@, rr) && tree_of(
                    final(self).forest@,
                    rr,
                ) == tree_of(old(self).forest@, rr),
    {
        node.splay(&mut self.forest);
    }
}

impl Default for LinkCutTree {
    /// The same empty structure `new` builds.
    fn default() -> (t: LinkCutTree)
        ensures
            t.forest@.len() == 0,
            wf(t.forest@),
    {
        LinkCutTree::new()
    }
}

} // verus!
