//! The structural model of the forest: parent chains, the well-formedness
//! predicate `wf`, and the lemmas about them that the tree operations use.
//!
//! `wf` has two parts: `links_ok` (every link is in bounds and the two ends
//! of every edge agree with each other) and `acyclic` (from every node,
//! following parent links reaches a root). All rotation and splay contracts
//! are stated against this model.

use vstd::prelude::*;

use crate::node::{
    nref, opp, opt_valid, slot, valid, with_parent, with_slot, Direction, Node, NodeRef,
};

verus! {

/// Link consistency at slot `i`: links are in bounds, the two children are
/// distinct, each child points back with its parent slot, and the parent
/// points down with one of its child slots.
pub open spec fn node_ok(s: Seq<Node>, i: int) -> bool {
    &&& opt_valid(s, s[i].left)
    &&& opt_valid(s, s[i].right)
    &&& opt_valid(s, s[i].parent)
    &&& (s[i].left is Some ==> s[i].left != s[i].right)
    &&& (match s[i].left {
        Some(c) => s[c.i as int].parent == Some(nref(i)),
        None => true,
    })
    &&& (match s[i].right {
        Some(c) => s[c.i as int].parent == Some(nref(i)),
        None => true,
    })
    &&& (match s[i].parent {
        Some(p) => s[p.i as int].left == Some(nref(i)) || s[p.i as int].right == Some(nref(i)),
        None => true,
    })
}

/// Link consistency at every slot.
pub open spec fn links_ok(s: Seq<Node>) -> bool {
    forall|i: int| 0 <= i < s.len() ==> #[trigger] node_ok(s, i)
}

/// The fuel that suffices for every terminating parent walk in `s`.
pub open spec fn flen(s: Seq<Node>) -> nat {
    s.len()
}

/// The chain of nodes from `r` (inclusive) up to the root of its tree,
/// following parent links, or `None` if `fuel` steps do not reach a root.
pub open spec fn pchain(s: Seq<Node>, r: NodeRef, fuel: nat) -> Option<Seq<NodeRef>>
    decreases fuel,
{
    if !valid(s, r) {
        None
    } else {
        match s[r.i as int].parent {
            None => Some(seq![r]),
            Some(p) => if fuel == 0 {
                None
            } else {
                match pchain(s, p, (fuel - 1) as nat) {
                    None => None,
                    Some(c) => Some(seq![r] + c),
                }
            },
        }
    }
}

/// Every node reaches a root by following parent links.
pub open spec fn acyclic(s: Seq<Node>) -> bool {
    forall|r: NodeRef| valid(s, r) ==> (#[trigger] pchain(s, r, flen(s))) is Some
}

/// Structural well-formedness of the whole forest. The length bound makes
/// every in-range position representable as a handle.
pub open spec fn wf(s: Seq<Node>) -> bool {
    s.len() <= usize::MAX && links_ok(s) && acyclic(s)
}

/// The ancestor chain of `r`, meaningful under `wf`.
pub open spec fn chain_of(s: Seq<Node>, r: NodeRef) -> Seq<NodeRef> {
    pchain(s, r, flen(s))->0
}

/// How many proper ancestors `r` has, meaningful under `wf`.
pub open spec fn depth_of(s: Seq<Node>, r: NodeRef) -> int {
    chain_of(s, r).len() - 1
}

/// The root of the tree containing `r`, meaningful under `wf`.
pub open spec fn root_of(s: Seq<Node>, r: NodeRef) -> NodeRef {
    chain_of(s, r).last()
}

/// `r` is the root of its tree.
pub open spec fn is_root(s: Seq<Node>, r: NodeRef) -> bool {
    valid(s, r) && s[r.i as int].parent is None
}

/// A larger fuel computes the same chain.
pub proof fn lemma_pchain_mono(s: Seq<Node>, r: NodeRef, f1: nat, f2: nat)
    requires
        pchain(s, r, f1) is Some,
        f1 <= f2,
    ensures
        pchain(s, r, f2) == pchain(s, r, f1),
    decreases f1,
{
    if valid(s, r) {
        match s[r.i as int].parent {
            None => {},
            Some(p) => {
                lemma_pchain_mono(s, p, (f1 - 1) as nat, (f2 - 1) as nat);
            },
        }
    }
}

/// The shape of a computed chain: it starts at `r`, consecutive elements are
/// linked by parent slots, every element is valid, and it ends at a root.
pub proof fn lemma_pchain_shape(s: Seq<Node>, r: NodeRef, f: nat)
    requires
        pchain(s, r, f) is Some,
    ensures
        ({
            let ch = pchain(s, r, f)->0;
            &&& ch.len() >= 1
            &&& ch[0] == r
            &&& (forall|k: int| 0 <= k < ch.len() ==> valid(s, #[trigger] ch[k]))
            &&& (forall|k: int|
                0 <= k < ch.len() - 1 ==> s[(#[trigger] ch[k]).i as int].parent == Some(ch[k + 1]))
            &&& s[ch.last().i as int].parent is None
        }),
    decreases f,
{
    let ch = pchain(s, r, f)->0;
    match s[r.i as int].parent {
        None => {},
        Some(p) => {
            lemma_pchain_shape(s, p, (f - 1) as nat);
            let cp = pchain(s, p, (f - 1) as nat)->0;
            assert(ch == seq![r] + cp);
            assert forall|k: int| 0 <= k < ch.len() implies valid(s, #[trigger] ch[k]) by {
                if k > 0 {
                    assert(ch[k] == cp[k - 1]);
                }
            }
            assert forall|k: int| 0 <= k < ch.len() - 1 implies s[(#[trigger] ch[k]).i
                as int].parent == Some(ch[k + 1]) by {
                if k > 0 {
                    assert(ch[k] == cp[k - 1]);
                    assert(ch[k + 1] == cp[k]);
                }
            }
            assert(ch.last() == cp.last());
        },
    }
}

/// Every suffix of a chain is itself the chain of its first element.
pub proof fn lemma_pchain_suffix(s: Seq<Node>, r: NodeRef, f: nat, k: int)
    requires
        pchain(s, r, f) is Some,
        0 <= k < pchain(s, r, f)->0.len(),
    ensures
        pchain(s, pchain(s, r, f)->0[k], f) == Some(pchain(s, r, f)->0.skip(k)),
    decreases f, k,
{
    let ch = pchain(s, r, f)->0;
    if k == 0 {
        assert(ch.skip(0) =~= ch);
    } else {
        let p = s[r.i as int].parent->0;
        let cp = pchain(s, p, (f - 1) as nat)->0;
        assert(ch == seq![r] + cp);
        assert(ch[k] == cp[k - 1]);
        lemma_pchain_suffix(s, p, (f - 1) as nat, k - 1);
        lemma_pchain_mono(s, cp[k - 1], (f - 1) as nat, f);
        assert(cp.skip(k - 1) =~= ch.skip(k));
    }
}

/// A chain never revisits a node.
pub proof fn lemma_pchain_no_dup(s: Seq<Node>, r: NodeRef, f: nat)
    requires
        pchain(s, r, f) is Some,
    ensures
        pchain(s, r, f)->0.no_duplicates(),
{
    let ch = pchain(s, r, f)->0;
    assert forall|a: int, b: int| 0 <= a < ch.len() && 0 <= b < ch.len() && a != b implies ch[a]
        != ch[b] by {
        lemma_pchain_suffix(s, r, f, a);
        lemma_pchain_suffix(s, r, f, b);
        if ch[a] == ch[b] {
            assert(ch.skip(a).len() == ch.skip(b).len());
        }
    }
}

/// A duplicate-free chain of valid nodes is no longer than the arena.
pub proof fn lemma_chain_bounded(s: Seq<Node>, ch: Seq<NodeRef>)
    requires
        ch.no_duplicates(),
        forall|k: int| 0 <= k < ch.len() ==> valid(s, #[trigger] ch[k]),
    ensures
        ch.len() <= s.len(),
{
    let idxs = ch.map_values(|r: NodeRef| r.i as int);
    assert(idxs.no_duplicates()) by {
        assert forall|a: int, b: int|
            0 <= a < idxs.len() && 0 <= b < idxs.len() && a != b implies idxs[a] != idxs[b] by {
            assert(ch[a] != ch[b]);
        }
    }
    idxs.unique_seq_to_set();
    let rng = vstd::set_lib::set_int_range(0, s.len() as int);
    vstd::set_lib::lemma_int_range(0, s.len() as int);
    assert(idxs.to_set().subset_of(rng)) by {
        assert forall|x: int| idxs.to_set().contains(x) implies rng.contains(x) by {
            let k = choose|k: int| 0 <= k < idxs.len() && idxs[k] == x;
            assert(valid(s, ch[k]));
        }
    }
    vstd::set_lib::lemma_len_subset(idxs.to_set(), rng);
}

/// Builds a chain from its shape: a sequence that starts at `r`, is linked by
/// parent slots, and ends at a root is what `pchain` computes.
pub proof fn lemma_pchain_build(s: Seq<Node>, ch: Seq<NodeRef>, f: nat)
    requires
        ch.len() >= 1,
        f >= ch.len() - 1,
        forall|k: int| 0 <= k < ch.len() ==> valid(s, #[trigger] ch[k]),
        forall|k: int|
            0 <= k < ch.len() - 1 ==> s[(#[trigger] ch[k]).i as int].parent == Some(ch[k + 1]),
        s[ch.last().i as int].parent is None,
    ensures
        pchain(s, ch[0], f) == Some(ch),
    decreases ch.len(),
{
    if ch.len() == 1 {
        assert(s[ch[0].i as int].parent is None);
        assert(pchain(s, ch[0], f) == Some(seq![ch[0]]));
        assert(seq![ch[0]] =~= ch);
    } else {
        let rest = ch.skip(1);
        assert(rest.last() == ch.last());
        assert forall|k: int| 0 <= k < rest.len() - 1 implies s[(#[trigger] rest[k]).i
            as int].parent == Some(rest[k + 1]) by {
            assert(rest[k] == ch[k + 1]);
            assert(rest[k + 1] == ch[k + 2]);
        }
        lemma_pchain_build(s, rest, (f - 1) as nat);
        assert(s[ch[0].i as int].parent == Some(ch[1]));
        assert(rest[0] == ch[1]);
        assert(seq![ch[0]] + rest =~= ch);
    }
}

/// Extends the chain of a node's parent down to the node itself, staying
/// within the canonical fuel.
pub proof fn lemma_pchain_extend(s: Seq<Node>, r: NodeRef)
    requires
        valid(s, r),
        s[r.i as int].parent is Some,
        valid(s, s[r.i as int].parent->0),
        pchain(s, s[r.i as int].parent->0, flen(s)) is Some,
    ensures
        pchain(s, r, flen(s)) == Some(seq![r] + pchain(s, s[r.i as int].parent->0, flen(s))->0),
    decreases 0nat,
{
    let p = s[r.i as int].parent->0;
    let cp = pchain(s, p, flen(s))->0;
    lemma_pchain_shape(s, p, flen(s));
    let ch = seq![r] + cp;
    assert(ch[0] == r);
    assert forall|k: int| 0 <= k < ch.len() implies valid(s, #[trigger] ch[k]) by {
        if k > 0 {
            assert(ch[k] == cp[k - 1]);
        }
    }
    assert forall|k: int| 0 <= k < ch.len() - 1 implies s[(#[trigger] ch[k]).i as int].parent
        == Some(ch[k + 1]) by {
        if k > 0 {
            assert(ch[k] == cp[k - 1]);
            assert(ch[k + 1] == cp[k]);
        }
    }
    assert(ch.last() == cp.last());
    lemma_pchain_build(s, ch, ch.len() as nat);
    lemma_pchain_no_dup(s, r, ch.len() as nat);
    assert(pchain(s, r, ch.len() as nat) == Some(ch));
    lemma_chain_bounded(s, ch);
    lemma_pchain_mono(s, r, ch.len() as nat, flen(s));
}

/// Under `wf`, one parent step: the chain of `r` is `r` followed by the
/// chain of its parent.
pub proof fn lemma_chain_step(s: Seq<Node>, r: NodeRef)
    requires
        wf(s),
        valid(s, r),
        s[r.i as int].parent is Some,
    ensures
        ({
            let p = s[r.i as int].parent->0;
            &&& valid(s, p)
            &&& chain_of(s, r) == seq![r] + chain_of(s, p)
            &&& depth_of(s, r) == depth_of(s, p) + 1
            &&& chain_of(s, r)[1] == p
        }),
{
    assert(node_ok(s, r.i as int));
    let p = s[r.i as int].parent->0;
    assert(pchain(s, p, flen(s)) is Some);
    lemma_pchain_extend(s, r);
    let cp = chain_of(s, p);
    assert((seq![r] + cp)[1] == cp[0]);
    lemma_pchain_shape(s, p, flen(s));
}

/// Under `wf`, the chain of a root is the one-element sequence.
pub proof fn lemma_chain_root(s: Seq<Node>, r: NodeRef)
    requires
        valid(s, r),
        s[r.i as int].parent is None,
    ensures
        pchain(s, r, flen(s)) == Some(seq![r]),
        chain_of(s, r) == seq![r],
        depth_of(s, r) == 0,
{
    assert(pchain(s, r, flen(s)) == Some(seq![r]));
}

} // verus!

use crate::node::dir_spec;

verus! {

/// The link graph after rotating `x` in direction `d` (promoting `x`'s
/// `opp(d)` child into `x`'s place), written as the exact sequence of slot
/// updates the rotation performs. If the required child is absent the
/// rotation is a no-op.
pub open spec fn rot_shape(s: Seq<Node>, x: NodeRef, d: Direction) -> Seq<Node> {
    let e = opp(d);
    match slot(s[x.i as int], e) {
        None => s,
        Some(y) => {
            let p = s[x.i as int].parent;
            let s1 = s.update(x.i as int, with_parent(s[x.i as int], Some(y)));
            let c = slot(s1[y.i as int], d);
            let s2 = s1.update(y.i as int, with_slot(s1[y.i as int], d, Some(x)));
            let s3 = s2.update(x.i as int, with_slot(s2[x.i as int], e, c));
            let s4 = match c {
                Some(cc) => s3.update(cc.i as int, with_parent(s3[cc.i as int], Some(x))),
                None => s3,
            };
            match p {
                Some(pp) => {
                    let pd = if s4[pp.i as int].left == Some(x) {
                        Direction::Left
                    } else {
                        Direction::Right
                    };
                    let s5 = s4.update(pp.i as int, with_slot(s4[pp.i as int], pd, Some(y)));
                    s5.update(y.i as int, with_parent(s5[y.i as int], Some(pp)))
                },
                None => s4.update(y.i as int, with_parent(s4[y.i as int], None)),
            }
        },
    }
}

/// The nodes taking part in a rotation at `x` are pairwise distinct, and
/// their links agree. This is what makes the update sequence in `rot_shape`
/// collision-free.
pub proof fn lemma_rot_context(s: Seq<Node>, x: NodeRef, d: Direction)
    requires
        wf(s),
        valid(s, x),
        slot(s[x.i as int], opp(d)) is Some,
    ensures
        ({
            let y = slot(s[x.i as int], opp(d))->0;
            let c = slot(s[y.i as int], d);
            let p = s[x.i as int].parent;
            &&& valid(s, y)
            &&& y != x
            &&& s[y.i as int].parent == Some(x)
            &&& (c is Some ==> valid(s, c->0) && c->0 != x && c->0 != y && s[c->0.i
                as int].parent == Some(y))
            &&& (p is Some ==> valid(s, p->0) && p->0 != x && p->0 != y && (c is Some ==> p->0
                != c->0) && dir_spec(s, p->0, x) is Some && chain_of(s, x)[1] == p->0)
        }),
{
    assert(node_ok(s, x.i as int));
    let y = slot(s[x.i as int], opp(d))->0;
    assert(nref(x.i as int) == x);
    assert(s[y.i as int].parent == Some(x));
    assert(node_ok(s, y.i as int));
    let cx = chain_of(s, x);
    lemma_pchain_shape(s, x, flen(s));
    lemma_pchain_no_dup(s, x, flen(s));
    lemma_chain_step(s, y);
    let cy = chain_of(s, y);
    lemma_pchain_no_dup(s, y, flen(s));
    assert(cy == seq![y] + cx);
    assert forall|k: int| 0 <= k < cx.len() implies cx[k] != y by {
        assert(cy[0] == y);
        assert(cy[k + 1] == cx[k]);
    }
    assert(cx[0] == x);
    let c = slot(s[y.i as int], d);
    if c is Some {
        let cc = c->0;
        assert(nref(y.i as int) == y);
        assert(s[cc.i as int].parent == Some(y));
        lemma_chain_step(s, cc);
        let ccch = chain_of(s, cc);
        lemma_pchain_no_dup(s, cc, flen(s));
        assert(ccch == seq![cc] + cy);
        assert forall|k: int| 0 <= k < cy.len() implies cy[k] != cc by {
            assert(ccch[0] == cc);
            assert(ccch[k + 1] == cy[k]);
        }
        assert(cy[0] == y);
        assert forall|k: int| 0 <= k < cx.len() implies cx[k] != cc by {
            assert(cy[k + 1] == cx[k]);
        }
    }
    let p = s[x.i as int].parent;
    if p is Some {
        lemma_chain_step(s, x);
        assert(cx[1] == p->0);
    }
}

} // verus!

verus! {

/// What one rotation does to the link graph, node by node: the pivot `x`,
/// the promoted child `y`, the transferred grandchild `c` and the old parent
/// `p` get exactly the classic new links, every other node is untouched,
/// well-formedness is preserved, `y` takes over `x`'s ancestor chain, and
/// every root other than `x` stays a root.
#[verifier::rlimit(100)]
pub proof fn lemma_rot_wf(s: Seq<Node>, x: NodeRef, d: Direction)
    requires
        wf(s),
        valid(s, x),
        slot(s[x.i as int], opp(d)) is Some,
    ensures
        ({
            let e = opp(d);
            let y = slot(s[x.i as int], e)->0;
            let c = slot(s[y.i as int], d);
            let p = s[x.i as int].parent;
            let s2 = rot_shape(s, x, d);
            &&& s2.len() == s.len()
            &&& (forall|k: int| 0 <= k < s.len() ==> s2[k].value == s[k].value)
            &&& s2[x.i as int] == with_slot(with_parent(s[x.i as int], Some(y)), e, c)
            &&& s2[y.i as int] == with_parent(with_slot(s[y.i as int], d, Some(x)), p)
            &&& (c is Some ==> s2[c->0.i as int] == with_parent(s[c->0.i as int], Some(x)))
            &&& (p is Some ==> s2[p->0.i as int] == with_slot(
                s[p->0.i as int],
                dir_spec(s, p->0, x)->0,
                Some(y),
            ))
            &&& (forall|r: NodeRef|
                valid(s, r) && r != x && r != y && (c is Some ==> r != c->0) ==> s2[(
                #[trigger] r.i) as int].parent == s[r.i as int].parent)
            &&& (forall|r: NodeRef|
                valid(s, r) && r != x && r != y && (p is Some ==> r != p->0) ==> s2[(
                #[trigger] r.i) as int].left == s[r.i as int].left && s2[r.i as int].right == s[r.i
                as int].right)
            &&& wf(s2)
            &&& chain_of(s2, y) == chain_of(s, x).update(0, y)
            &&& depth_of(s2, y) == depth_of(s, x)
            &&& (forall|r: NodeRef| is_root(s, r) && r != x ==> #[trigger] is_root(s2, r))
            &&& (is_root(s, x) ==> is_root(s2, y))
        }),
{
    lemma_rot_context(s, x, d);
    let e = opp(d);
    let y = slot(s[x.i as int], e)->0;
    let c = slot(s[y.i as int], d);
    let p = s[x.i as int].parent;
    let s2 = rot_shape(s, x, d);
    assert(node_ok(s, x.i as int));
    assert(node_ok(s, y.i as int));
    assert(nref(x.i as int) == x);
    assert(nref(y.i as int) == y);

    // the untouched child of x on the d side, if any
    let cxd = slot(s[x.i as int], d);
    lemma_pchain_shape(s, x, flen(s));
    lemma_pchain_no_dup(s, x, flen(s));
    let cx = chain_of(s, x);
    if cxd is Some {
        let w = cxd->0;
        assert(node_ok(s, w.i as int));
        assert(s[w.i as int].parent == Some(x));
        lemma_chain_step(s, w);
        lemma_pchain_no_dup(s, w, flen(s));
        let cw = chain_of(s, w);
        assert(cw == seq![w] + cx);
        assert forall|k: int| 0 <= k < cx.len() implies cx[k] != w by {
            assert(cw[0] == w);
            assert(cw[k + 1] == cx[k]);
        }
        assert(cx[0] == x);
        if p is Some {
            assert(cx[1] == p->0);
        }
        assert(w != x && (p is Some ==> w != p->0));
        assert(w != y) by {
            assert(slot(s[x.i as int], e) != slot(s[x.i as int], d));
        }
        assert(c is Some ==> w != c->0) by {
            if c is Some && w == c->0 {
                assert(s[c->0.i as int].parent == Some(y));
                assert(s[w.i as int].parent == Some(x));
            }
        }
    }
    // the untouched child of y on the e side, if any
    let cye = slot(s[y.i as int], e);
    if cye is Some {
        let w = cye->0;
        assert(s[w.i as int].parent == Some(y));
        assert(w != y) by {
            assert(s[y.i as int].parent == Some(x));
        }
        assert(w != x) by {
            if w == x {
                assert(s[x.i as int].parent == Some(y));
                if p is Some {
                    assert(p->0 != y);
                } else {
                    assert(s[x.i as int].parent is None);
                }
            }
        }
        assert(c is Some ==> w != c->0) by {
            assert(c is Some ==> slot(s[y.i as int], e) != slot(s[y.i as int], d));
        }
    }
    // the grandparent keeps x's old parent out of the updated set
    let gp = if p is Some {
        s[p->0.i as int].parent
    } else {
        None::<NodeRef>
    };
    if p is Some {
        assert(node_ok(s, p->0.i as int));
        if gp is Some {
            lemma_chain_step(s, x);
            lemma_chain_step(s, p->0);
            let cp = chain_of(s, p->0);
            assert(cx == seq![x] + cp);
            assert(cp[1] == gp->0);
            assert(cx[2] == gp->0);
            assert(gp->0 != x && gp->0 != p->0);
            assert forall|k: int| 0 <= k < cx.len() implies cx[k] != y by {
                lemma_chain_step(s, y);
                lemma_pchain_no_dup(s, y, flen(s));
                let cy = chain_of(s, y);
                assert(cy == seq![y] + cx);
                assert(cy[0] == y);
                assert(cy[k + 1] == cx[k]);
            }
            assert(gp->0 != y);
            if c is Some {
                assert forall|k: int| 0 <= k < cx.len() implies cx[k] != c->0 by {
                    lemma_chain_step(s, y);
                    lemma_chain_step(s, c->0);
                    lemma_pchain_no_dup(s, c->0, flen(s));
                    let cy = chain_of(s, y);
                    let ccc = chain_of(s, c->0);
                    assert(ccc == seq![c->0] + cy);
                    assert(cy == seq![y] + cx);
                    assert(ccc[0] == c->0);
                    assert(ccc[k + 2] == cx[k]);
                }
                assert(gp->0 != c->0);
            }
        }
    }

    // pointwise description of s2
    let pd = if p is Some {
        dir_spec(s, p->0, x)->0
    } else {
        Direction::Left
    };
    assert(s2[x.i as int] == with_slot(with_parent(s[x.i as int], Some(y)), e, c));
    assert(s2[y.i as int] == with_parent(with_slot(s[y.i as int], d, Some(x)), p));
    if c is Some {
        assert(s2[c->0.i as int] == with_parent(s[c->0.i as int], Some(x)));
    }
    if p is Some {
        assert(s2[p->0.i as int] == with_slot(s[p->0.i as int], pd, Some(y)));
    }
    assert forall|k: int| 0 <= k < s.len() implies s2[k].value == s[k].value by {
        assert(node_ok(s, k));
    }

    assert forall|r: NodeRef|
        valid(s, r) && r != x && r != y && (c is Some ==> r != c->0) implies s2[(#[trigger] r.i)
        as int].parent == s[r.i as int].parent by {
        if p is Some && r == p->0 {
        }
    }
    assert forall|r: NodeRef|
        valid(s, r) && r != x && r != y && (p is Some ==> r != p->0) implies s2[(#[trigger] r.i)
        as int].left == s[r.i as int].left && s2[r.i as int].right == s[r.i as int].right by {
        if c is Some && r == c->0 {
        }
    }
    assert forall|i: int| 0 <= i < s2.len() implies node_ok(s2, i) by {
        lemma_rot_node_ok(s, s2, x, y, c, p, d, i);
    }
    assert(links_ok(s2));
    // acyclicity of s2, and the chain handover from x to y
    if p is Some {
        let cp = chain_of(s, p->0);
        lemma_chain_step(s, x);
        assert(cx == seq![x] + cp);
        lemma_pchain_shape(s, p->0, flen(s));
        assert forall|k: int| 0 <= k < cp.len() implies s2[(#[trigger] cp[k]).i as int].parent
            == s[cp[k].i as int].parent by {
            assert(cx[k + 1] == cp[k]);
            assert(cp[k] != x);
            assert(cp[k] != y) by {
                lemma_chain_step(s, y);
                lemma_pchain_no_dup(s, y, flen(s));
                let cy = chain_of(s, y);
                assert(cy == seq![y] + cx);
                assert(cy[0] == y);
                assert(cy[k + 2] == cp[k]);
            }
            if c is Some {
                assert(cp[k] != c->0) by {
                    lemma_chain_step(s, y);
                    lemma_chain_step(s, c->0);
                    lemma_pchain_no_dup(s, c->0, flen(s));
                    let cy = chain_of(s, y);
                    let ccc = chain_of(s, c->0);
                    assert(ccc == seq![c->0] + cy);
                    assert(cy == seq![y] + cx);
                    assert(ccc[0] == c->0);
                    assert(ccc[k + 3] == cp[k]);
                }
            }
        }
        lemma_pchain_frame(s, s2, p->0, flen(s));
        lemma_pchain_extend(s2, y);
        assert(chain_of(s2, y) == seq![y] + cp);
        assert(chain_of(s2, y) =~= cx.update(0, y));
    } else {
        assert(s2[y.i as int].parent is None);
        lemma_chain_root(s2, y);
        assert(cx == seq![x]);
        assert(chain_of(s2, y) =~= cx.update(0, y));
    }
    lemma_pchain_extend(s2, x);
    if c is Some {
        lemma_pchain_extend(s2, c->0);
    }
    assert forall|r: NodeRef| valid(s2, r) implies (#[trigger] pchain(s2, r, flen(s2))) is
        Some by {
        lemma_rot_rechain(s, x, d, r);
    }
    assert(acyclic(s2));

    // roots other than x stay roots
    assert forall|r: NodeRef| is_root(s, r) && r != x implies #[trigger] is_root(s2, r) by {
        assert(r != y && (c is Some ==> r != c->0));
    }
}

/// Helper for `lemma_rot_wf`: link consistency at one slot after a
/// rotation, with the rotated graph `s2` given by its pointwise relation to
/// `s` and the participating nodes given as pairwise distinct.
#[verifier::spinoff_prover]
#[verifier::rlimit(100)]
proof fn lemma_rot_node_ok(
    s: Seq<Node>,
    s2: Seq<Node>,
    x: NodeRef,
    y: NodeRef,
    c: Option<NodeRef>,
    p: Option<NodeRef>,
    d: Direction,
    i: int,
)
    requires
        links_ok(s),
        s.len() <= usize::MAX,
        valid(s, x),
        slot(s[x.i as int], opp(d)) == Some(y),
        c == slot(s[y.i as int], d),
        p == s[x.i as int].parent,
        y != x,
        (c is Some ==> c->0 != x && c->0 != y),
        (p is Some ==> p->0 != x && p->0 != y && (c is Some ==> p->0 != c->0) && dir_spec(
            s,
            p->0,
            x,
        ) is Some),
        ({
            let e = opp(d);
            let cxd = slot(s[x.i as int], d);
            let cye = slot(s[y.i as int], e);
            let gp = if p is Some {
                s[p->0.i as int].parent
            } else {
                None::<NodeRef>
            };
            &&& (cxd is Some ==> cxd->0 != x && cxd->0 != y && (c is Some ==> cxd->0 != c->0) && (
            p is Some ==> cxd->0 != p->0))
            &&& (cye is Some ==> cye->0 != x && cye->0 != y && (c is Some ==> cye->0 != c->0))
            &&& (gp is Some ==> gp->0 != x && gp->0 != y && gp->0 != p->0 && (c is Some ==> gp->0
                != c->0))
        }),
        s2.len() == s.len(),
        s2[x.i as int] == with_slot(with_parent(s[x.i as int], Some(y)), opp(d), c),
        s2[y.i as int] == with_parent(with_slot(s[y.i as int], d, Some(x)), p),
        (c is Some ==> s2[c->0.i as int] == with_parent(s[c->0.i as int], Some(x))),
        (p is Some ==> s2[p->0.i as int] == with_slot(
            s[p->0.i as int],
            dir_spec(s, p->0, x)->0,
            Some(y),
        )),
        forall|r: NodeRef|
            valid(s, r) && r != x && r != y && (c is Some ==> r != c->0) ==> s2[(#[trigger] r.i)
                as int].parent == s[r.i as int].parent,
        forall|r: NodeRef|
            valid(s, r) && r != x && r != y && (p is Some ==> r != p->0) ==> s2[(#[trigger] r.i)
                as int].left == s[r.i as int].left && s2[r.i as int].right == s[r.i as int].right,
        0 <= i < s.len(),
    ensures
        node_ok(s2, i),
{
    let e = opp(d);
    assert(node_ok(s, x.i as int));
    assert(node_ok(s, y.i as int));
    assert(nref(x.i as int) == x);
    assert(nref(y.i as int) == y);
    let cxd = slot(s[x.i as int], d);
    let cye = slot(s[y.i as int], e);
    let gp = if p is Some {
        s[p->0.i as int].parent
    } else {
        None::<NodeRef>
    };
    let pd = if p is Some {
        dir_spec(s, p->0, x)->0
    } else {
        Direction::Left
    };
    assert(node_ok(s, i));
    let r = nref(i);
    let r = nref(i);
    if i == x.i as int {
        // children of x in s2: c on side e, cxd on side d
        if c is Some {
            assert(s2[c->0.i as int].parent == Some(x));
        }
        if cxd is Some {
            assert(s2[cxd->0.i as int].parent == Some(x));
        }
        if c is Some && cxd is Some {
            assert(c->0 != cxd->0);
        }
        assert(s2[y.i as int].left == Some(x) || s2[y.i as int].right == Some(x));
    } else if i == y.i as int {
        assert(s2[x.i as int].parent == Some(y));
        if cye is Some {
            assert(s2[cye->0.i as int].parent == Some(y));
        }
        assert(x != cye->0 || cye is None);
        if p is Some {
            assert(s2[p->0.i as int].left == Some(y) || s2[p->0.i as int].right == Some(y));
        }
    } else if c is Some && i == c->0.i as int {
        // c's own children are untouched and still point back at c
        assert(s2[x.i as int].left == Some(c->0) || s2[x.i as int].right == Some(c->0));
        match s[i].left {
            Some(w) => {
                assert(s[w.i as int].parent == Some(c->0));
                assert(w != x && w != y && w != c->0);
                assert(s2[w.i as int].parent == Some(c->0));
            },
            None => {},
        }
        match s[i].right {
            Some(w) => {
                assert(s[w.i as int].parent == Some(c->0));
                assert(w != x && w != y && w != c->0);
                assert(s2[w.i as int].parent == Some(c->0));
            },
            None => {},
        }
    } else if p is Some && i == p->0.i as int {
        // p's pd slot now holds y; its other slot is untouched
        assert(s2[y.i as int].parent == Some(p->0));
        let other = slot(s[i], opp(pd));
        match other {
            Some(w) => {
                assert(s[w.i as int].parent == Some(p->0));
                assert(w != x) by {
                    assert(slot(s[i], pd) == Some(x));
                    assert(slot(s[i], pd) != slot(s[i], opp(pd)));
                }
                assert(w != y && (c is Some ==> w != c->0));
                assert(s2[w.i as int].parent == Some(p->0));
            },
            None => {},
        }
        match s[i].parent {
            Some(g) => {
                assert(g == gp->0);
                assert(s2[g.i as int].left == s[g.i as int].left && s2[g.i as int].right
                    == s[g.i as int].right);
            },
            None => {},
        }
    } else {
        // untouched node: its links are unchanged and so are all the
        // nodes its links point at, as far as node_ok reads them
        assert((i as usize) as int == i);
        assert(r != x && r != y && (c is Some ==> r != c->0) && (p is Some ==> r != p->0));
        assert(r.i as int == i);
        assert(s2[i].parent == s[i].parent);
        assert(s2[i].left == s[i].left && s2[i].right == s[i].right);
        match s[i].left {
            Some(w) => {
                assert(s[w.i as int].parent == Some(r));
                assert(w != x) by {
                    if w == x {
                        assert(p == Some(r));
                        assert(p->0.i as int == i);
                    }
                }
                assert(w != y) by {
                    if w == y {
                        assert(s[y.i as int].parent == Some(x));
                    }
                }
                assert(c is Some ==> w != c->0) by {
                    if c is Some && w == c->0 {
                        assert(s[c->0.i as int].parent == Some(y));
                    }
                }
                assert(s2[w.i as int].parent == Some(r));
            },
            None => {},
        }
        match s[i].right {
            Some(w) => {
                assert(s[w.i as int].parent == Some(r));
                assert(w != x) by {
                    if w == x {
                        assert(p == Some(r));
                        assert(p->0.i as int == i);
                    }
                }
                assert(w != y) by {
                    if w == y {
                        assert(s[y.i as int].parent == Some(x));
                    }
                }
                assert(c is Some ==> w != c->0) by {
                    if c is Some && w == c->0 {
                        assert(s[c->0.i as int].parent == Some(y));
                    }
                }
                assert(s2[w.i as int].parent == Some(r));
            },
            None => {},
        }
        match s[i].parent {
            Some(q) => {
                assert(s[q.i as int].left == Some(r) || s[q.i as int].right == Some(r));
                if q == x {
                    assert(Some(r) == slot(s[q.i as int], e) || Some(r) == slot(
                        s[q.i as int],
                        d,
                    )) by {
                        match d {
                            Direction::Left => {},
                            Direction::Right => {},
                        }
                    }
                    assert(r != y);
                    assert(r == cxd->0);
                    assert(slot(s2[x.i as int], d) == cxd);
                    assert(s2[q.i as int].left == Some(r) || s2[q.i as int].right == Some(
                        r,
                    )) by {
                        match d {
                            Direction::Left => {},
                            Direction::Right => {},
                        }
                    }
                } else if q == y {
                    assert(r == cye->0);
                    assert(slot(s2[y.i as int], e) == cye);
                } else if p is Some && q == p->0 {
                    assert(r != x);
                    assert(slot(s[q.i as int], pd) == Some(x));
                    assert(slot(s2[q.i as int], opp(pd)) == slot(s[q.i as int], opp(pd)));
                    assert(slot(s2[q.i as int], opp(pd)) == Some(r));
                } else {
                    assert(s2[q.i as int].left == s[q.i as int].left && s2[q.i
                        as int].right == s[q.i as int].right);
                }
            },
            None => {},
        }
    }
}

/// Helper for `lemma_rot_wf`: after the rotation every node still reaches a
/// root along parent links.
proof fn lemma_rot_rechain(s: Seq<Node>, x: NodeRef, d: Direction, r: NodeRef)
    requires
        wf(s),
        valid(s, x),
        slot(s[x.i as int], opp(d)) is Some,
        valid(s, r),
    ensures
        pchain(rot_shape(s, x, d), r, flen(rot_shape(s, x, d))) is Some,
    decreases depth_of(s, r),
{
    lemma_rot_context(s, x, d);
    let e = opp(d);
    let y = slot(s[x.i as int], e)->0;
    let c = slot(s[y.i as int], d);
    let p = s[x.i as int].parent;
    let s2 = rot_shape(s, x, d);
    assert(s2.len() == s.len());
    assert(node_ok(s, x.i as int));
    assert(node_ok(s, y.i as int));
    assert(nref(x.i as int) == x);
    assert(nref(y.i as int) == y);
    assert(s2[x.i as int] == with_slot(with_parent(s[x.i as int], Some(y)), e, c));
    assert(s2[y.i as int] == with_parent(with_slot(s[y.i as int], d, Some(x)), p));
    if c is Some {
        assert(s2[c->0.i as int] == with_parent(s[c->0.i as int], Some(x)));
    }
    // the chain of y in s2: p's chain is untouched, then extend down
    lemma_pchain_shape(s, x, flen(s));
    lemma_pchain_no_dup(s, x, flen(s));
    let cx = chain_of(s, x);
    if p is Some {
        let cp = chain_of(s, p->0);
        lemma_chain_step(s, x);
        assert(cx == seq![x] + cp);
        lemma_pchain_shape(s, p->0, flen(s));
        assert forall|k: int| 0 <= k < cp.len() implies s2[(#[trigger] cp[k]).i as int].parent
            == s[cp[k].i as int].parent by {
            assert(cx[k + 1] == cp[k]);
            assert(cp[k] != x);
            assert(cp[k] != y) by {
                lemma_chain_step(s, y);
                lemma_pchain_no_dup(s, y, flen(s));
                let cy = chain_of(s, y);
                assert(cy == seq![y] + cx);
                assert(cy[0] == y);
                assert(cy[k + 2] == cp[k]);
            }
            if c is Some {
                assert(cp[k] != c->0) by {
                    lemma_chain_step(s, y);
                    lemma_chain_step(s, c->0);
                    lemma_pchain_no_dup(s, c->0, flen(s));
                    let cy = chain_of(s, y);
                    let ccc = chain_of(s, c->0);
                    assert(ccc == seq![c->0] + cy);
                    assert(cy == seq![y] + cx);
                    assert(ccc[0] == c->0);
                    assert(ccc[k + 3] == cp[k]);
                }
            }
        }
        lemma_pchain_frame(s, s2, p->0, flen(s));
    }
    if r == y || r == x || (c is Some && r == c->0) {
        if p is Some {
            lemma_pchain_extend(s2, y);
        } else {
            assert(s2[y.i as int].parent is None);
        }
        assert(pchain(s2, y, flen(s2)) is Some);
        lemma_pchain_extend(s2, x);
        if c is Some {
            lemma_pchain_extend(s2, c->0);
        }
    } else {
        // r keeps its parent link
        assert(s2[r.i as int].parent == s[r.i as int].parent);
        match s[r.i as int].parent {
            None => {
                assert(pchain(s2, r, flen(s2)) == Some(seq![r]));
            },
            Some(pr) => {
                assert(node_ok(s, r.i as int));
                lemma_chain_step(s, r);
                lemma_rot_rechain(s, x, d, pr);
                lemma_pchain_extend(s2, r);
            },
        }
    }
}

/// A chain stays the same if the parent slots of its members are unchanged.
pub proof fn lemma_pchain_frame(s1: Seq<Node>, s2: Seq<Node>, r: NodeRef, f: nat)
    requires
        pchain(s1, r, f) is Some,
        s1.len() <= s2.len(),
        forall|k: int|
            0 <= k < pchain(s1, r, f)->0.len() ==> s2[(#[trigger] pchain(s1, r, f)->0[k]).i
                as int].parent == s1[pchain(s1, r, f)->0[k].i as int].parent,
    ensures
        pchain(s2, r, f) == pchain(s1, r, f),
    decreases f,
{
    let ch = pchain(s1, r, f)->0;
    assert(ch[0] == r);
    match s1[r.i as int].parent {
        None => {},
        Some(p) => {
            let cp = pchain(s1, p, (f - 1) as nat)->0;
            assert(ch == seq![r] + cp);
            assert forall|k: int| 0 <= k < cp.len() implies s2[(#[trigger] cp[k]).i
                as int].parent == s1[cp[k].i as int].parent by {
                assert(ch[k + 1] == cp[k]);
            }
            lemma_pchain_frame(s1, s2, p, (f - 1) as nat);
        },
    }
}

} // verus!

verus! {

/// The zig step: `p` is the parent of `x` on side `dir1`; rotating `p` in
/// direction `opp(dir1)` promotes `x` one level; if `p` was the root, `x`
/// becomes the root.
pub proof fn lemma_splay_zig(s: Seq<Node>, x: NodeRef, p: NodeRef, dir1: Direction)
    requires
        wf(s),
        valid(s, p),
        slot(s[p.i as int], dir1) == Some(x),
    ensures
        ({
            let s2 = rot_shape(s, p, opp(dir1));
            &&& wf(s2)
            &&& s2.len() == s.len()
            &&& (forall|k: int| 0 <= k < s.len() ==> s2[k].value == s[k].value)
            &&& depth_of(s, x) == depth_of(s, p) + 1
            &&& depth_of(s2, x) == depth_of(s, p)
            &&& depth_of(s, x) >= 1
            &&& (s[p.i as int].parent is None ==> is_root(s2, x))
        }),
{
    assert(node_ok(s, p.i as int));
    assert(nref(p.i as int) == p);
    assert(slot(s[p.i as int], opp(opp(dir1))) == Some(x));
    lemma_rot_wf(s, p, opp(dir1));
    let s2 = rot_shape(s, p, opp(dir1));
    assert(s[x.i as int].parent == Some(p));
    lemma_chain_step(s, x);
    lemma_pchain_shape(s, p, flen(s));
    assert(chain_of(s2, x) == chain_of(s, p).update(0, x));
    lemma_pchain_shape(s2, x, flen(s2));
    if s[p.i as int].parent is None {
        lemma_chain_root(s, p);
        assert(chain_of(s2, x) =~= seq![x]);
        assert(chain_of(s2, x).last() == x);
        assert(s2[x.i as int].parent is None);
    }
}

/// The zig-zig step: `x` under `p` under `g`, both on side `dir1`. Rotating
/// `g` then `p`, both in direction `opp(dir1)`, moves `x` two levels up.
pub proof fn lemma_splay_zigzig(s: Seq<Node>, x: NodeRef, p: NodeRef, g: NodeRef, dir1: Direction)
    requires
        wf(s),
        valid(s, p),
        valid(s, g),
        slot(s[p.i as int], dir1) == Some(x),
        slot(s[g.i as int], dir1) == Some(p),
    ensures
        ({
            let s1 = rot_shape(s, g, opp(dir1));
            let s2 = rot_shape(s1, p, opp(dir1));
            &&& wf(s1)
            &&& s1.len() == s.len()
            &&& slot(s1[p.i as int], dir1) == Some(x)
            &&& wf(s2)
            &&& s2.len() == s.len()
            &&& (forall|k: int| 0 <= k < s.len() ==> s2[k].value == s[k].value)
            &&& depth_of(s, x) >= 2
            &&& depth_of(s2, x) == depth_of(s, x) - 2
        }),
{
    assert(node_ok(s, p.i as int));
    assert(node_ok(s, g.i as int));
    assert(nref(p.i as int) == p);
    assert(nref(g.i as int) == g);
    assert(s[x.i as int].parent == Some(p));
    assert(s[p.i as int].parent == Some(g));
    lemma_chain_step(s, x);
    lemma_chain_step(s, p);
    lemma_pchain_no_dup(s, x, flen(s));
    let cx = chain_of(s, x);
    assert(cx == seq![x] + chain_of(s, p));
    assert(chain_of(s, p) == seq![p] + chain_of(s, g));
    assert(cx[0] == x && cx[1] == p && cx[2] == g);
    assert(x != p && x != g);
    // first rotation: pivot g promotes p
    lemma_rot_wf(s, g, opp(dir1));
    let s1 = rot_shape(s, g, opp(dir1));
    let c1 = slot(s[p.i as int], opp(dir1));
    assert(c1 is Some ==> c1->0 != x) by {
        assert(slot(s[p.i as int], dir1) != slot(s[p.i as int], opp(dir1)));
    }
    assert(s1[x.i as int].parent == s[x.i as int].parent);
    assert(chain_of(s1, p) == chain_of(s, g).update(0, p));
    assert(depth_of(s1, p) == depth_of(s, g));
    lemma_chain_step(s1, x);
    assert(depth_of(s1, x) == depth_of(s, x) - 1);
    // p's child slot on side dir1 is untouched by the first rotation
    assert(s1[p.i as int] == with_parent(
        with_slot(s[p.i as int], opp(dir1), Some(g)),
        s[g.i as int].parent,
    ));
    assert(slot(s1[p.i as int], dir1) == Some(x));
    // second rotation: pivot p promotes x
    lemma_rot_wf(s1, p, opp(dir1));
    let s2 = rot_shape(s1, p, opp(dir1));
    assert(chain_of(s2, x) == chain_of(s1, p).update(0, x));
    assert(depth_of(s2, x) == depth_of(s1, p));
    lemma_pchain_shape(s, g, flen(s));
}

/// The zig-zag step: `x` under `p` on side `dir1`, `p` under `g` on the
/// opposite side `dir2`. Rotating `p` in direction `dir2` and then `g` in
/// direction `dir1` promotes `x` two levels.
pub proof fn lemma_splay_zigzag(
    s: Seq<Node>,
    x: NodeRef,
    p: NodeRef,
    g: NodeRef,
    dir1: Direction,
    dir2: Direction,
)
    requires
        wf(s),
        valid(s, p),
        valid(s, g),
        dir2 == opp(dir1),
        slot(s[p.i as int], dir1) == Some(x),
        slot(s[g.i as int], dir2) == Some(p),
    ensures
        ({
            let s1 = rot_shape(s, p, dir2);
            let s2 = rot_shape(s1, g, dir1);
            &&& wf(s1)
            &&& s1.len() == s.len()
            &&& slot(s1[g.i as int], dir2) == Some(x)
            &&& wf(s2)
            &&& s2.len() == s.len()
            &&& (forall|k: int| 0 <= k < s.len() ==> s2[k].value == s[k].value)
            &&& depth_of(s, x) >= 2
            &&& depth_of(s2, x) == depth_of(s, x) - 2
        }),
{
    assert(node_ok(s, p.i as int));
    assert(node_ok(s, g.i as int));
    assert(nref(p.i as int) == p);
    assert(nref(g.i as int) == g);
    assert(s[x.i as int].parent == Some(p));
    assert(s[p.i as int].parent == Some(g));
    lemma_chain_step(s, x);
    lemma_chain_step(s, p);
    lemma_pchain_no_dup(s, x, flen(s));
    let cx = chain_of(s, x);
    assert(cx == seq![x] + chain_of(s, p));
    assert(chain_of(s, p) == seq![p] + chain_of(s, g));
    assert(cx[0] == x && cx[1] == p && cx[2] == g);
    assert(x != p && x != g && p != g);
    // first rotation: pivot p promotes x itself
    assert(slot(s[p.i as int], opp(dir2)) == Some(x));
    lemma_rot_wf(s, p, dir2);
    let s1 = rot_shape(s, p, dir2);
    let c1 = slot(s[x.i as int], dir2);
    assert(chain_of(s1, x) == chain_of(s, p).update(0, x));
    assert(depth_of(s1, x) == depth_of(s, p));
    // g's chain is untouched by the first rotation
    let cg = chain_of(s, g);
    lemma_pchain_shape(s, g, flen(s));
    lemma_pchain_shape(s, x, flen(s));
    assert forall|k: int| 0 <= k < cg.len() implies s1[(#[trigger] cg[k]).i as int].parent
        == s[cg[k].i as int].parent by {
        assert(cx[k + 2] == cg[k]);
        assert(cg[k] != x && cg[k] != p);
        if c1 is Some {
            assert(cg[k] != c1->0) by {
                assert(node_ok(s, x.i as int));
                assert(nref(x.i as int) == x);
                assert(valid(s, c1->0));
                assert(s[c1->0.i as int].parent == Some(x));
                lemma_chain_step(s, c1->0);
                lemma_pchain_no_dup(s, c1->0, flen(s));
                let cc = chain_of(s, c1->0);
                assert(cc == seq![c1->0] + cx);
                assert(cc[0] == c1->0);
                assert(cc[k + 3] == cg[k]);
            }
        }
        assert(valid(s, cg[k]));
    }
    lemma_pchain_frame(s, s1, g, flen(s));
    assert(depth_of(s1, g) == depth_of(s, g));
    // after the first rotation, g's dir2 slot holds x
    assert(dir_spec(s, g, p) == Some(dir2)) by {
        assert(node_ok(s, g.i as int));
        match dir2 {
            Direction::Left => {},
            Direction::Right => {
                assert(s[g.i as int].left != Some(p)) by {
                    if s[g.i as int].left == Some(p) {
                        assert(s[g.i as int].left == s[g.i as int].right);
                    }
                }
            },
        }
    }
    assert(s1[g.i as int] == with_slot(s[g.i as int], dir2, Some(x)));
    assert(slot(s1[g.i as int], dir2) == Some(x));
    // second rotation: pivot g promotes x again
    assert(slot(s1[g.i as int], opp(dir1)) == Some(x));
    lemma_rot_wf(s1, g, dir1);
    let s2 = rot_shape(s1, g, dir1);
    assert(chain_of(s2, x) == chain_of(s1, g).update(0, x));
    assert(depth_of(s2, x) == depth_of(s1, g));
}

} // verus!

verus! {

/// The in-order sequence of nodes of the subtree hanging from `o`, or `None`
/// if `fuel` levels do not exhaust it.
pub open spec fn subtree(s: Seq<Node>, o: Option<NodeRef>, fuel: nat) -> Option<Seq<NodeRef>>
    decreases fuel,
{
    match o {
        None => Some(Seq::empty()),
        Some(r) => {
            if !valid(s, r) {
                None
            } else if fuel == 0 {
                None
            } else {
                let l = subtree(s, s[r.i as int].left, (fuel - 1) as nat);
                let rr = subtree(s, s[r.i as int].right, (fuel - 1) as nat);
                if l is Some && rr is Some {
                    Some(l->0 + seq![r] + rr->0)
                } else {
                    None
                }
            }
        },
    }
}

/// The fuel that suffices for every subtree in a well-formed forest.
pub open spec fn sfuel(s: Seq<Node>) -> nat {
    s.len() + 1
}

/// The in-order node sequence of the subtree hanging from the optional link
/// `o`, meaningful under `wf`.
pub open spec fn opt_tree(s: Seq<Node>, o: Option<NodeRef>) -> Seq<NodeRef> {
    subtree(s, o, sfuel(s))->0
}

/// The in-order node sequence of the tree rooted at `r`, meaningful under
/// `wf`.
pub open spec fn tree_of(s: Seq<Node>, r: NodeRef) -> Seq<NodeRef> {
    opt_tree(s, Some(r))
}

/// The values the nodes `q` hold, in order.
pub open spec fn values_of(s: Seq<Node>, q: Seq<NodeRef>) -> Seq<u64> {
    q.map_values(|r: NodeRef| s[r.i as int].value)
}

/// The in-order value sequence of the tree rooted at `r`.
pub open spec fn tree_values(s: Seq<Node>, r: NodeRef) -> Seq<u64> {
    values_of(s, tree_of(s, r))
}

/// A strictly increasing value sequence.
pub open spec fn sorted(v: Seq<u64>) -> bool {
    forall|a: int, b: int| 0 <= a < b < v.len() ==> v[a] < v[b]
}

/// A larger fuel computes the same subtree.
pub proof fn lemma_subtree_mono(s: Seq<Node>, o: Option<NodeRef>, f1: nat, f2: nat)
    requires
        subtree(s, o, f1) is Some,
        f1 <= f2,
    ensures
        subtree(s, o, f2) == subtree(s, o, f1),
    decreases f1,
{
    match o {
        None => {},
        Some(r) => {
            lemma_subtree_mono(s, s[r.i as int].left, (f1 - 1) as nat, (f2 - 1) as nat);
            lemma_subtree_mono(s, s[r.i as int].right, (f1 - 1) as nat, (f2 - 1) as nat);
        },
    }
}

/// A subtree stays the same if the child slots of its members are unchanged.
pub proof fn lemma_subtree_frame(s1: Seq<Node>, s2: Seq<Node>, o: Option<NodeRef>, f: nat)
    requires
        subtree(s1, o, f) is Some,
        s1.len() <= s2.len(),
        forall|k: int|
            0 <= k < subtree(s1, o, f)->0.len() ==> s2[(#[trigger] subtree(s1, o, f)->0[k]).i
                as int].left == s1[subtree(s1, o, f)->0[k].i as int].left && s2[subtree(
                s1,
                o,
                f,
            )->0[k].i as int].right == s1[subtree(s1, o, f)->0[k].i as int].right,
    ensures
        subtree(s2, o, f) == subtree(s1, o, f),
    decreases f,
{
    match o {
        None => {},
        Some(r) => {
            let l = subtree(s1, s1[r.i as int].left, (f - 1) as nat)->0;
            let rr = subtree(s1, s1[r.i as int].right, (f - 1) as nat)->0;
            let whole = subtree(s1, o, f)->0;
            assert(whole == l + seq![r] + rr);
            assert(whole[l.len() as int] == r);
            assert forall|k: int| 0 <= k < l.len() implies s2[(#[trigger] l[k]).i as int].left
                == s1[l[k].i as int].left && s2[l[k].i as int].right == s1[l[k].i
                as int].right by {
                assert(whole[k] == l[k]);
            }
            assert forall|k: int| 0 <= k < rr.len() implies s2[(#[trigger] rr[k]).i as int].left
                == s1[rr[k].i as int].left && s2[rr[k].i as int].right == s1[rr[k].i
                as int].right by {
                assert(whole[l.len() + 1 + k] == rr[k]);
            }
            lemma_subtree_frame(s1, s2, s1[r.i as int].left, (f - 1) as nat);
            lemma_subtree_frame(s1, s2, s1[r.i as int].right, (f - 1) as nat);
            assert(s2[r.i as int].left == s1[r.i as int].left);
            assert(s2[r.i as int].right == s1[r.i as int].right);
        },
    }
}

/// Under `wf`, the subtree of a node at depth `d` unfolds within
/// `s.len() - d` levels.
pub proof fn lemma_subtree_defined_at(s: Seq<Node>, r: NodeRef)
    requires
        wf(s),
        valid(s, r),
    ensures
        depth_of(s, r) < s.len(),
        subtree(s, Some(r), (s.len() - depth_of(s, r)) as nat) is Some,
    decreases s.len() - depth_of(s, r),
{
    lemma_pchain_shape(s, r, flen(s));
    lemma_pchain_no_dup(s, r, flen(s));
    lemma_chain_bounded(s, chain_of(s, r));
    assert(depth_of(s, r) < s.len());
    assert(node_ok(s, r.i as int));
    assert(nref(r.i as int) == r);
    let f = (s.len() - depth_of(s, r)) as nat;
    match s[r.i as int].left {
        Some(w) => {
            assert(s[w.i as int].parent == Some(r));
            lemma_chain_step(s, w);
            lemma_subtree_defined_at(s, w);
            lemma_subtree_mono(
                s,
                Some(w),
                (s.len() - depth_of(s, w)) as nat,
                (f - 1) as nat,
            );
        },
        None => {},
    }
    match s[r.i as int].right {
        Some(w) => {
            assert(s[w.i as int].parent == Some(r));
            lemma_chain_step(s, w);
            lemma_subtree_defined_at(s, w);
            lemma_subtree_mono(
                s,
                Some(w),
                (s.len() - depth_of(s, w)) as nat,
                (f - 1) as nat,
            );
        },
        None => {},
    }
    assert(subtree(s, s[r.i as int].left, (f - 1) as nat) is Some);
    assert(subtree(s, s[r.i as int].right, (f - 1) as nat) is Some);
}

/// Under `wf`, every subtree is defined at the canonical fuel.
pub proof fn lemma_subtree_defined(s: Seq<Node>, o: Option<NodeRef>)
    requires
        wf(s),
        opt_valid(s, o),
    ensures
        subtree(s, o, sfuel(s)) is Some,
{
    match o {
        None => {},
        Some(r) => {
            lemma_subtree_defined_at(s, r);
            lemma_subtree_mono(s, o, (s.len() - depth_of(s, r)) as nat, sfuel(s));
        },
    }
}

/// Members of a subtree: they are valid, the subtree contains its root, each
/// member's own subtree is a subset no larger than the whole, and each
/// member other than the root has its parent among the members.
pub proof fn lemma_subtree_members(s: Seq<Node>, o: Option<NodeRef>, f: nat)
    requires
        links_ok(s),
        s.len() <= usize::MAX,
        subtree(s, o, f) is Some,
    ensures
        ({
            let l = subtree(s, o, f)->0;
            &&& (forall|k: int| 0 <= k < l.len() ==> valid(s, #[trigger] l[k]))
            &&& (o is Some ==> l.contains(o->0) && l.len() >= 1)
            &&& (forall|w: NodeRef| #[trigger] l.contains(w) ==> subtree(s, Some(w), f) is Some
                && subtree(s, Some(w), f)->0.to_set() <= l.to_set() && subtree(
                s,
                Some(w),
                f,
            )->0.len() <= l.len() && (o is Some && w != o->0 ==> subtree(s, Some(w), f)->0.len()
                < l.len() && s[w.i as int].parent is Some && l.contains(
                s[w.i as int].parent->0,
            )))
            &&& (o is Some && s[o->0.i as int].left is Some ==> l.contains(
                s[o->0.i as int].left->0,
            ))
            &&& (o is Some && s[o->0.i as int].right is Some ==> l.contains(
                s[o->0.i as int].right->0,
            ))
        }),
    decreases f,
{
    match o {
        None => {},
        Some(r) => {
            let l = subtree(s, o, f)->0;
            let la = subtree(s, s[r.i as int].left, (f - 1) as nat)->0;
            let lb = subtree(s, s[r.i as int].right, (f - 1) as nat)->0;
            assert(l == la + seq![r] + lb);
            assert(l[la.len() as int] == r);
            assert(l.contains(r));
            lemma_subtree_members(s, s[r.i as int].left, (f - 1) as nat);
            lemma_subtree_members(s, s[r.i as int].right, (f - 1) as nat);
            assert(node_ok(s, r.i as int));
            assert(nref(r.i as int) == r);
            assert forall|k: int| 0 <= k < l.len() implies valid(s, #[trigger] l[k]) by {
                if k < la.len() {
                    assert(l[k] == la[k]);
                } else if k > la.len() {
                    assert(l[k] == lb[k - la.len() - 1]);
                }
            }
            assert forall|w: NodeRef| #[trigger] l.contains(w) implies subtree(
                s,
                Some(w),
                f,
            ) is Some && subtree(s, Some(w), f)->0.to_set() <= l.to_set() && subtree(
                s,
                Some(w),
                f,
            )->0.len() <= l.len() && (w != r ==> subtree(s, Some(w), f)->0.len() < l.len()
                && s[w.i as int].parent is Some && l.contains(s[w.i as int].parent->0)) by {
                let k = choose|k: int| 0 <= k < l.len() && l[k] == w;
                if k == la.len() {
                    // w == r: its subtree is l itself at this fuel
                    assert(w == r);
                    lemma_subtree_mono(s, s[r.i as int].left, (f - 1) as nat, f);
                } else if k < la.len() {
                    assert(la[k] == w);
                    assert(la.contains(w));
                    lemma_subtree_mono(s, Some(w), (f - 1) as nat, f);
                    assert(la.to_set() <= l.to_set()) by {
                        assert forall|u: NodeRef| la.to_set().contains(u) implies
                            l.to_set().contains(u) by {
                            let j = choose|j: int| 0 <= j < la.len() && la[j] == u;
                            assert(l[j] == u);
                        }
                    }
                    if w == s[r.i as int].left->0 {
                        assert(s[w.i as int].parent == Some(r));
                        assert(subtree(s, Some(w), (f - 1) as nat)->0 == la);
                    } else {
                        assert(la.contains(s[w.i as int].parent->0));
                        let j = choose|j: int|
                            0 <= j < la.len() && la[j] == s[w.i as int].parent->0;
                        assert(l[j] == s[w.i as int].parent->0);
                    }
                } else {
                    assert(lb[k - la.len() - 1] == w);
                    assert(lb.contains(w));
                    lemma_subtree_mono(s, Some(w), (f - 1) as nat, f);
                    assert(lb.to_set() <= l.to_set()) by {
                        assert forall|u: NodeRef| lb.to_set().contains(u) implies
                            l.to_set().contains(u) by {
                            let j = choose|j: int| 0 <= j < lb.len() && lb[j] == u;
                            assert(l[la.len() + 1 + j] == u);
                        }
                    }
                    if w == s[r.i as int].right->0 {
                        assert(s[w.i as int].parent == Some(r));
                        assert(subtree(s, Some(w), (f - 1) as nat)->0 == lb);
                    } else {
                        assert(lb.contains(s[w.i as int].parent->0));
                        let j = choose|j: int|
                            0 <= j < lb.len() && lb[j] == s[w.i as int].parent->0;
                        assert(l[la.len() + 1 + j] == s[w.i as int].parent->0);
                    }
                }
            }
            if s[r.i as int].left is Some {
                assert(la.contains(s[r.i as int].left->0));
                let j = choose|j: int| 0 <= j < la.len() && la[j] == s[r.i as int].left->0;
                assert(l[j] == s[r.i as int].left->0);
            }
            if s[r.i as int].right is Some {
                assert(lb.contains(s[r.i as int].right->0));
                let j = choose|j: int| 0 <= j < lb.len() && lb[j] == s[r.i as int].right->0;
                assert(l[la.len() + 1 + j] == s[r.i as int].right->0);
            }
        },
    }
}

} // verus!

verus! {

/// Every member of a subtree has the subtree's root among its ancestors.
pub proof fn lemma_subtree_ancestor(s: Seq<Node>, o: Option<NodeRef>, f: nat)
    requires
        wf(s),
        subtree(s, o, f) is Some,
    ensures
        ({
            let l = subtree(s, o, f)->0;
            o is Some ==> forall|w: NodeRef| #[trigger] l.contains(w) ==> chain_of(
                s,
                w,
            ).contains(o->0)
        }),
    decreases f,
{
    match o {
        None => {},
        Some(r) => {
            let l = subtree(s, o, f)->0;
            let la = subtree(s, s[r.i as int].left, (f - 1) as nat)->0;
            let lb = subtree(s, s[r.i as int].right, (f - 1) as nat)->0;
            assert(l == la + seq![r] + lb);
            lemma_subtree_ancestor(s, s[r.i as int].left, (f - 1) as nat);
            lemma_subtree_ancestor(s, s[r.i as int].right, (f - 1) as nat);
            lemma_subtree_members(s, s[r.i as int].left, (f - 1) as nat);
            lemma_subtree_members(s, s[r.i as int].right, (f - 1) as nat);
            assert(node_ok(s, r.i as int));
            assert(nref(r.i as int) == r);
            assert forall|w: NodeRef| #[trigger] l.contains(w) implies chain_of(s, w).contains(
                r,
            ) by {
                let k = choose|k: int| 0 <= k < l.len() && l[k] == w;
                if k == la.len() {
                    assert(w == r);
                    lemma_pchain_shape(s, r, flen(s));
                    assert(chain_of(s, r)[0] == r);
                } else {
                    let (side, y): (Option<NodeRef>, NodeRef) = if k < la.len() {
                        (s[r.i as int].left, s[r.i as int].left->0)
                    } else {
                        (s[r.i as int].right, s[r.i as int].right->0)
                    };
                    if k < la.len() {
                        assert(la[k] == w);
                        assert(la.contains(w));
                    } else {
                        assert(lb[k - la.len() - 1] == w);
                        assert(lb.contains(w));
                    }
                    assert(valid(s, w));
                    assert(pchain(s, w, flen(s)) is Some);
                    assert(chain_of(s, w).contains(y));
                    let j = choose|j: int|
                        0 <= j < chain_of(s, w).len() && chain_of(s, w)[j] == y;
                    lemma_pchain_suffix(s, w, flen(s), j);
                    assert(pchain(s, y, flen(s)) == Some(chain_of(s, w).skip(j)));
                    assert(s[y.i as int].parent == Some(r));
                    lemma_chain_step(s, y);
                    assert(chain_of(s, y)[1] == r);
                    assert(chain_of(s, w).skip(j)[1] == r);
                    assert(chain_of(s, w)[j + 1] == r);
                }
            }
        },
    }
}

/// A subtree never lists a node twice.
pub proof fn lemma_subtree_no_dup(s: Seq<Node>, o: Option<NodeRef>, f: nat)
    requires
        wf(s),
        subtree(s, o, f) is Some,
    ensures
        subtree(s, o, f)->0.no_duplicates(),
    decreases f,
{
    match o {
        None => {},
        Some(r) => {
            let l = subtree(s, o, f)->0;
            let la = subtree(s, s[r.i as int].left, (f - 1) as nat)->0;
            let lb = subtree(s, s[r.i as int].right, (f - 1) as nat)->0;
            assert(l == la + seq![r] + lb);
            lemma_subtree_no_dup(s, s[r.i as int].left, (f - 1) as nat);
            lemma_subtree_no_dup(s, s[r.i as int].right, (f - 1) as nat);
            lemma_subtree_members(s, s[r.i as int].left, (f - 1) as nat);
            lemma_subtree_members(s, s[r.i as int].right, (f - 1) as nat);
            lemma_subtree_members(s, o, f);
            assert(node_ok(s, r.i as int));
            assert(nref(r.i as int) == r);
            // the root sits in neither child sequence
            assert(!la.contains(r)) by {
                if la.contains(r) {
                    lemma_subtree_mono(s, Some(r), (f - 1) as nat, f);
                    assert(subtree(s, Some(r), f)->0.len() <= la.len());
                }
            }
            assert(!lb.contains(r)) by {
                if lb.contains(r) {
                    lemma_subtree_mono(s, Some(r), (f - 1) as nat, f);
                    assert(subtree(s, Some(r), f)->0.len() <= lb.len());
                }
            }
            // the two child sequences are disjoint
            assert forall|w: NodeRef| la.contains(w) implies !lb.contains(w) by {
                if la.contains(w) && lb.contains(w) {
                    let yl = s[r.i as int].left->0;
                    let yr = s[r.i as int].right->0;
                    assert(yl != yr);
                    lemma_subtree_ancestor(s, s[r.i as int].left, (f - 1) as nat);
                    lemma_subtree_ancestor(s, s[r.i as int].right, (f - 1) as nat);
                    let cw = chain_of(s, w);
                    assert(cw.contains(yl));
                    assert(cw.contains(yr));
                    let j1 = choose|j: int| 0 <= j < cw.len() && cw[j] == yl;
                    let j2 = choose|j: int| 0 <= j < cw.len() && cw[j] == yr;
                    assert(subtree(s, s[r.i as int].left, (f - 1) as nat)->0[0] == la[0]);
                    assert(valid(s, w)) by {
                        assert(la.contains(w));
                    }
                    lemma_pchain_suffix(s, w, flen(s), j1);
                    lemma_pchain_suffix(s, w, flen(s), j2);
                    assert(s[yl.i as int].parent == Some(r));
                    assert(s[yr.i as int].parent == Some(r));
                    lemma_chain_step(s, yl);
                    lemma_chain_step(s, yr);
                    assert(cw[j1 + 1] == r) by {
                        assert(pchain(s, yl, flen(s)) == Some(cw.skip(j1)));
                        assert(chain_of(s, yl)[1] == r);
                        assert(cw.skip(j1)[1] == r);
                    }
                    assert(cw[j2 + 1] == r) by {
                        assert(pchain(s, yr, flen(s)) == Some(cw.skip(j2)));
                        assert(chain_of(s, yr)[1] == r);
                        assert(cw.skip(j2)[1] == r);
                    }
                    lemma_pchain_no_dup(s, w, flen(s));
                    assert(j1 + 1 == j2 + 1);
                }
            }
            assert forall|a: int, b: int|
                0 <= a < l.len() && 0 <= b < l.len() && a != b implies l[a] != l[b] by {
                if l[a] == l[b] {
                    let la_len = la.len() as int;
                    if a < la_len {
                        assert(l[a] == la[a]);
                        assert(la.contains(l[a]));
                    }
                    if b < la_len {
                        assert(l[b] == la[b]);
                        assert(la.contains(l[b]));
                    }
                    if a > la_len {
                        assert(l[a] == lb[a - la_len - 1]);
                        assert(lb.contains(l[a]));
                    }
                    if b > la_len {
                        assert(l[b] == lb[b - la_len - 1]);
                        assert(lb.contains(l[b]));
                    }
                }
            }
        },
    }
}

/// Every node belongs to the tree of its own root.
pub proof fn lemma_node_in_its_tree(s: Seq<Node>, w: NodeRef)
    requires
        wf(s),
        valid(s, w),
    ensures
        is_root(s, root_of(s, w)),
        subtree(s, Some(root_of(s, w)), sfuel(s)) is Some,
        tree_of(s, root_of(s, w)).contains(w),
    decreases depth_of(s, w),
{
    lemma_pchain_shape(s, w, flen(s));
    match s[w.i as int].parent {
        None => {
            lemma_chain_root(s, w);
            assert(root_of(s, w) == w);
            lemma_subtree_defined(s, Some(w));
            lemma_subtree_members(s, Some(w), sfuel(s));
        },
        Some(pr) => {
            assert(node_ok(s, w.i as int));
            assert(nref(w.i as int) == w);
            lemma_chain_step(s, w);
            lemma_pchain_shape(s, pr, flen(s));
            assert(root_of(s, w) == root_of(s, pr)) by {
                assert(chain_of(s, w) == seq![w] + chain_of(s, pr));
                assert(chain_of(s, w).last() == chain_of(s, pr).last());
            }
            lemma_node_in_its_tree(s, pr);
            let rt = root_of(s, pr);
            lemma_subtree_members(s, Some(rt), sfuel(s));
            assert(tree_of(s, rt).contains(pr));
            assert(subtree(s, Some(pr), sfuel(s)) is Some);
            lemma_subtree_members(s, Some(pr), sfuel(s));
            // w is a child of pr, so it sits in pr's subtree, hence in the tree
            assert(s[pr.i as int].left == Some(w) || s[pr.i as int].right == Some(w)) by {
                assert(node_ok(s, pr.i as int));
            }
            assert(subtree(s, Some(pr), sfuel(s))->0.contains(w));
            assert(subtree(s, Some(pr), sfuel(s))->0.to_set() <= tree_of(s, rt).to_set());
            assert(tree_of(s, rt).to_set().contains(w));
            assert(tree_of(s, rt).contains(w));
        },
    }
}

} // verus!

verus! {

/// A strict ancestor of `u` never appears inside `u`'s subtree.
pub proof fn lemma_ancestor_not_below(s: Seq<Node>, u: NodeRef, a: NodeRef, f: nat)
    requires
        wf(s),
        valid(s, u),
        subtree(s, Some(u), f) is Some,
        chain_of(s, u).contains(a),
        a != u,
    ensures
        !subtree(s, Some(u), f)->0.contains(a),
{
    if subtree(s, Some(u), f)->0.contains(a) {
        lemma_subtree_ancestor(s, Some(u), f);
        assert(chain_of(s, a).contains(u));
        let i = choose|i: int| 0 <= i < chain_of(s, u).len() && chain_of(s, u)[i] == a;
        lemma_pchain_suffix(s, u, flen(s), i);
        assert(chain_of(s, a) == chain_of(s, u).skip(i));
        let j = choose|j: int| 0 <= j < chain_of(s, a).len() && chain_of(s, a)[j] == u;
        assert(chain_of(s, u)[i + j] == u);
        lemma_pchain_no_dup(s, u, flen(s));
        lemma_pchain_shape(s, u, flen(s));
        assert(chain_of(s, u)[0] == u);
        assert(i + j == 0);
    }
}

/// Every node appears in the subtree of each of its ancestors.
pub proof fn lemma_below_ancestor(s: Seq<Node>, w: NodeRef, j: int)
    requires
        wf(s),
        valid(s, w),
        0 <= j < chain_of(s, w).len(),
    ensures
        subtree(s, Some(chain_of(s, w)[j]), sfuel(s)) is Some,
        subtree(s, Some(chain_of(s, w)[j]), sfuel(s))->0.contains(w),
    decreases j,
{
    lemma_pchain_shape(s, w, flen(s));
    let u = chain_of(s, w)[j];
    lemma_subtree_defined(s, Some(u));
    lemma_subtree_members(s, Some(u), sfuel(s));
    if j == 0 {
        assert(u == w);
    } else {
        let v = chain_of(s, w)[j - 1];
        lemma_below_ancestor(s, w, j - 1);
        assert(s[v.i as int].parent == Some(u));
        assert(node_ok(s, v.i as int));
        assert(nref(v.i as int) == v);
        assert(s[u.i as int].left == Some(v) || s[u.i as int].right == Some(v));
        assert(subtree(s, Some(u), sfuel(s))->0.contains(v));
        assert(subtree(s, Some(v), sfuel(s))->0.to_set() <= subtree(
            s,
            Some(u),
            sfuel(s),
        )->0.to_set());
        assert(subtree(s, Some(v), sfuel(s))->0.to_set().contains(w));
        assert(subtree(s, Some(u), sfuel(s))->0.to_set().contains(w));
    }
}

/// The rotation at `x` hands `x`'s in-order subtree sequence over to the
/// promoted child unchanged.
#[verifier::spinoff_prover]
#[verifier::rlimit(100)]
pub proof fn lemma_rot_tree_local(s: Seq<Node>, x: NodeRef, d: Direction)
    requires
        wf(s),
        valid(s, x),
        slot(s[x.i as int], opp(d)) is Some,
    ensures
        ({
            let y = slot(s[x.i as int], opp(d))->0;
            let s2 = rot_shape(s, x, d);
            &&& subtree(s2, Some(y), sfuel(s)) is Some
            &&& subtree(s2, Some(y), sfuel(s)) == subtree(s, Some(x), sfuel(s))
        }),
{
    lemma_rot_context(s, x, d);
    lemma_rot_wf(s, x, d);
    let e = opp(d);
    let y = slot(s[x.i as int], e)->0;
    let c = slot(s[y.i as int], d);
    let p = s[x.i as int].parent;
    let s2 = rot_shape(s, x, d);
    let fu = sfuel(s);
    assert(sfuel(s2) == fu);
    assert(node_ok(s, x.i as int));
    assert(node_ok(s, y.i as int));
    assert(nref(x.i as int) == x);
    assert(nref(y.i as int) == y);
    lemma_subtree_defined(s, Some(x));
    lemma_subtree_defined(s, Some(y));
    lemma_subtree_defined(s2, Some(x));
    lemma_subtree_defined(s2, Some(y));
    let cxd = slot(s[x.i as int], d);
    let cye = slot(s[y.i as int], e);
    lemma_rot_local_frame(s, x, d, cye);
    lemma_rot_local_frame(s, x, d, c);
    lemma_rot_local_frame(s, x, d, cxd);
    // assemble both unfoldings
    assert(s2[x.i as int] == with_slot(with_parent(s[x.i as int], Some(y)), e, c));
    assert(s2[y.i as int] == with_parent(with_slot(s[y.i as int], d, Some(x)), p));
    let fm = (fu - 1) as nat;
    match d {
        Direction::Right => {
            assert(s[x.i as int].left == Some(y));
            assert(cxd == s[x.i as int].right);
            assert(c == s[y.i as int].right);
            assert(cye == s[y.i as int].left);
            assert(subtree(s, Some(x), fu)->0 == subtree(s, Some(y), fm)->0 + seq![x] + subtree(
                s,
                cxd,
                fm,
            )->0);
            lemma_subtree_mono(s, Some(y), fm, fu);
            assert(subtree(s, Some(y), fu)->0 == subtree(s, cye, fm)->0 + seq![y] + subtree(
                s,
                c,
                fm,
            )->0);
            assert(s2[y.i as int].left == cye && s2[y.i as int].right == Some(x));
            assert(s2[x.i as int].left == c && s2[x.i as int].right == cxd);
            assert(subtree(s2, Some(y), fu)->0 == subtree(s2, cye, fm)->0 + seq![y] + subtree(
                s2,
                Some(x),
                fm,
            )->0);
            lemma_subtree_mono(s2, Some(x), fm, fu);
            assert(subtree(s2, Some(x), fu)->0 == subtree(s2, c, fm)->0 + seq![x] + subtree(
                s2,
                cxd,
                fm,
            )->0);
            assert(subtree(s2, cye, fm) == subtree(s, cye, fm));
            assert(subtree(s2, c, fm) == subtree(s, c, fm));
            assert(subtree(s2, cxd, fm) == subtree(s, cxd, fm));
            assert(subtree(s2, Some(y), fu)->0 =~= subtree(s, Some(x), fu)->0);
        },
        Direction::Left => {
            assert(s[x.i as int].right == Some(y));
            assert(cxd == s[x.i as int].left);
            assert(c == s[y.i as int].left);
            assert(cye == s[y.i as int].right);
            assert(subtree(s, Some(x), fu)->0 == subtree(s, cxd, fm)->0 + seq![x] + subtree(
                s,
                Some(y),
                fm,
            )->0);
            lemma_subtree_mono(s, Some(y), fm, fu);
            assert(subtree(s, Some(y), fu)->0 == subtree(s, c, fm)->0 + seq![y] + subtree(
                s,
                cye,
                fm,
            )->0);
            assert(s2[y.i as int].right == cye && s2[y.i as int].left == Some(x));
            assert(s2[x.i as int].right == c && s2[x.i as int].left == cxd);
            assert(subtree(s2, Some(y), fu)->0 == subtree(s2, Some(x), fm)->0 + seq![y]
                + subtree(s2, cye, fm)->0);
            lemma_subtree_mono(s2, Some(x), fm, fu);
            assert(subtree(s2, Some(x), fu)->0 == subtree(s2, cxd, fm)->0 + seq![x] + subtree(
                s2,
                c,
                fm,
            )->0);
            assert(subtree(s2, cye, fm) == subtree(s, cye, fm));
            assert(subtree(s2, c, fm) == subtree(s, c, fm));
            assert(subtree(s2, cxd, fm) == subtree(s, cxd, fm));
            assert(subtree(s2, Some(y), fu)->0 =~= subtree(s, Some(x), fu)->0);
        },
    }
}

} // verus!

verus! {

/// Helper for `lemma_rot_tree_local`: the subtree hanging from one of the
/// three grandchild links around the rotation is untouched by it.
#[verifier::spinoff_prover]
proof fn lemma_rot_local_frame(s: Seq<Node>, x: NodeRef, d: Direction, o: Option<NodeRef>)
    requires
        wf(s),
        valid(s, x),
        slot(s[x.i as int], opp(d)) is Some,
        ({
            let y = slot(s[x.i as int], opp(d))->0;
            o == slot(s[y.i as int], opp(d)) || o == slot(s[y.i as int], d) || o == slot(
                s[x.i as int],
                d,
            )
        }),
    ensures
        subtree(rot_shape(s, x, d), o, (sfuel(s) - 1) as nat) == subtree(
            s,
            o,
            (sfuel(s) - 1) as nat,
        ),
{
    lemma_rot_context(s, x, d);
    lemma_rot_wf(s, x, d);
    let e = opp(d);
    let y = slot(s[x.i as int], e)->0;
    let c = slot(s[y.i as int], d);
    let p = s[x.i as int].parent;
    let s2 = rot_shape(s, x, d);
    let fu = sfuel(s);
    assert(node_ok(s, x.i as int));
    assert(node_ok(s, y.i as int));
    assert(nref(x.i as int) == x);
    assert(nref(y.i as int) == y);
    lemma_subtree_defined(s, Some(x));
    lemma_subtree_defined(s, Some(y));
    assert(subtree(s, o, (fu - 1) as nat) is Some) by {
        match d {
            Direction::Left => {},
            Direction::Right => {},
        }
    }
    let l = subtree(s, o, (fu - 1) as nat)->0;
    assert forall|k: int| 0 <= k < l.len() implies s2[(#[trigger] l[k]).i as int].left == s[l[k].i
        as int].left && s2[l[k].i as int].right == s[l[k].i as int].right by {
        lemma_rot_frame_member(s, x, d, o, l[k]);
    }
    lemma_subtree_frame(s, s2, o, (fu - 1) as nat);
}

/// Helper for `lemma_rot_local_frame`: one member of a grandchild subtree is
/// none of the three nodes whose child slots the rotation changes.
#[verifier::spinoff_prover]
#[verifier::rlimit(100)]
proof fn lemma_rot_frame_member(s: Seq<Node>, x: NodeRef, d: Direction, o: Option<NodeRef>, w: NodeRef)
    requires
        wf(s),
        valid(s, x),
        slot(s[x.i as int], opp(d)) is Some,
        ({
            let y = slot(s[x.i as int], opp(d))->0;
            o == slot(s[y.i as int], opp(d)) || o == slot(s[y.i as int], d) || o == slot(
                s[x.i as int],
                d,
            )
        }),
        subtree(s, o, (sfuel(s) - 1) as nat) is Some,
        subtree(s, o, (sfuel(s) - 1) as nat)->0.contains(w),
    ensures
        valid(s, w),
        ({
            let y = slot(s[x.i as int], opp(d))->0;
            let p = s[x.i as int].parent;
            w != x && w != y && (p is Some ==> w != p->0)
        }),
{
    lemma_rot_context(s, x, d);
    let e = opp(d);
    let y = slot(s[x.i as int], e)->0;
    let c = slot(s[y.i as int], d);
    let p = s[x.i as int].parent;
    let fu = sfuel(s);
    assert(node_ok(s, x.i as int));
    assert(node_ok(s, y.i as int));
    assert(nref(x.i as int) == x);
    assert(nref(y.i as int) == y);
    lemma_subtree_defined(s, Some(x));
    lemma_subtree_defined(s, Some(y));
    lemma_subtree_no_dup(s, Some(x), fu);
    lemma_subtree_no_dup(s, Some(y), fu);
    lemma_subtree_members(s, Some(x), fu);
    lemma_subtree_members(s, Some(y), fu);
    let tx = subtree(s, Some(x), fu)->0;
    let ty = subtree(s, Some(y), fu)->0;
    lemma_chain_step(s, y);
    lemma_pchain_no_dup(s, y, flen(s));
    assert(chain_of(s, y).contains(x)) by {
        assert(chain_of(s, y)[1] == x);
    }
    lemma_ancestor_not_below(s, y, x, fu);
    if p is Some {
        lemma_chain_step(s, x);
        assert(chain_of(s, y).contains(p->0)) by {
            assert(chain_of(s, x)[1] == p->0);
            assert(chain_of(s, y)[2] == p->0);
        }
        assert(chain_of(s, x).contains(p->0)) by {
            assert(chain_of(s, x)[1] == p->0);
        }
        lemma_ancestor_not_below(s, y, p->0, fu);
        lemma_ancestor_not_below(s, x, p->0, fu);
    }
    let cxd = slot(s[x.i as int], d);
    let cye = slot(s[y.i as int], e);
    lemma_subtree_mono(s, cye, (fu - 1) as nat, fu);
    lemma_subtree_mono(s, c, (fu - 1) as nat, fu);
    lemma_subtree_mono(s, cxd, (fu - 1) as nat, fu);
    assert(ty.to_set() <= tx.to_set()) by {
        assert(tx.contains(y));
    }
    assert(subtree(s, o, fu)->0.contains(w));
    // w sits under x (and under y for the e/d sides), so it is none
    // of x, y, p, whose child slots are the only ones that changed
    if o == cye || o == c {
        assert(o == s[y.i as int].left || o == s[y.i as int].right) by {
            match d {
                Direction::Left => {},
                Direction::Right => {},
            }
        }
        assert(o is Some);
        assert(ty.contains(o->0));
        assert(subtree(s, Some(o->0), fu)->0.to_set() <= ty.to_set());
        assert(subtree(s, o, fu)->0.to_set().contains(w));
        assert(ty.to_set().contains(w));
        assert(ty.contains(w));
        assert(w != x);
        assert(w != y) by {
            if w == y {
                let la = subtree(s, s[y.i as int].left, (fu - 1) as nat)->0;
                let lb = subtree(s, s[y.i as int].right, (fu - 1) as nat)->0;
                assert(ty == la + seq![y] + lb);
                assert(ty[la.len() as int] == y);
                assert(subtree(s, o, (fu - 1) as nat)->0.contains(y));
                lemma_subtree_no_dup(s, Some(y), fu);
                if o == s[y.i as int].left {
                    assert(la.contains(y));
                    let j2 = choose|j2: int| 0 <= j2 < la.len() && la[j2] == y;
                    assert(ty[j2] == y);
                } else {
                    assert(lb.contains(y));
                    let j2 = choose|j2: int| 0 <= j2 < lb.len() && lb[j2] == y;
                    assert(ty[la.len() + 1 + j2] == y);
                }
            }
        }
        assert(p is Some ==> w != p->0);
    } else {
        assert(o == cxd);
        assert(o == s[x.i as int].left || o == s[x.i as int].right) by {
            match d {
                Direction::Left => {},
                Direction::Right => {},
            }
        }
        assert(o is Some);
        assert(tx.contains(o->0));
        assert(subtree(s, Some(o->0), fu)->0.to_set() <= tx.to_set());
        assert(subtree(s, o, fu)->0.to_set().contains(w));
        assert(tx.to_set().contains(w));
        assert(tx.contains(w));
        assert(p is Some ==> w != p->0);
        assert(w != x) by {
            if w == x {
                let la = subtree(s, s[x.i as int].left, (fu - 1) as nat)->0;
                let lb = subtree(s, s[x.i as int].right, (fu - 1) as nat)->0;
                assert(tx == la + seq![x] + lb);
                assert(tx[la.len() as int] == x);
                assert(subtree(s, o, (fu - 1) as nat)->0.contains(x));
                lemma_subtree_no_dup(s, Some(x), fu);
                if o == s[x.i as int].left {
                    assert(la.contains(x));
                    let j2 = choose|j2: int| 0 <= j2 < la.len() && la[j2] == x;
                    assert(tx[j2] == x);
                } else {
                    assert(lb.contains(x));
                    let j2 = choose|j2: int| 0 <= j2 < lb.len() && lb[j2] == x;
                    assert(tx[la.len() + 1 + j2] == x);
                }
            }
        }
        assert(w != y) by {
            if w == y {
                // y hangs on the e side of x, o == cxd on the d side, so
                // y would appear twice in x's subtree
                let la = subtree(s, s[x.i as int].left, (fu - 1) as nat)->0;
                let lb = subtree(s, s[x.i as int].right, (fu - 1) as nat)->0;
                assert(tx == la + seq![x] + lb);
                lemma_subtree_no_dup(s, Some(x), fu);
                lemma_subtree_members(s, Some(y), fu);
                assert(subtree(s, o, (fu - 1) as nat)->0.contains(y));
                lemma_subtree_mono(s, Some(y), (fu - 1) as nat, fu);
                assert(subtree(s, Some(y), (fu - 1) as nat)->0.contains(y)) by {
                    assert(subtree(s, Some(y), fu)->0.contains(y));
                }
                match d {
                    Direction::Left => {
                        // e == Right: y under x's right, o under x's left
                        assert(lb == subtree(s, Some(y), (fu - 1) as nat)->0);
                        assert(la == subtree(s, o, (fu - 1) as nat)->0);
                        assert(lb.contains(y));
                        assert(la.contains(y));
                        let j1 = choose|j1: int| 0 <= j1 < la.len() && la[j1] == y;
                        let j2 = choose|j2: int| 0 <= j2 < lb.len() && lb[j2] == y;
                        assert(tx[j1] == y);
                        assert(tx[la.len() + 1 + j2] == y);
                    },
                    Direction::Right => {
                        assert(la == subtree(s, Some(y), (fu - 1) as nat)->0);
                        assert(lb == subtree(s, o, (fu - 1) as nat)->0);
                        assert(la.contains(y));
                        assert(lb.contains(y));
                        let j1 = choose|j1: int| 0 <= j1 < la.len() && la[j1] == y;
                        let j2 = choose|j2: int| 0 <= j2 < lb.len() && lb[j2] == y;
                        assert(tx[j1] == y);
                        assert(tx[la.len() + 1 + j2] == y);
                    },
                }
            }
        }
    }
    assert(valid(s, w));
}

} // verus!

verus! {

/// Two nodes taken from the two child subtrees of `t` are distinct, and
/// neither is `t`.
proof fn lemma_sides_disjoint(s: Seq<Node>, t: NodeRef, f: nat, q: NodeRef, w: NodeRef)
    requires
        wf(s),
        valid(s, t),
        subtree(s, Some(t), f) is Some,
        subtree(s, s[t.i as int].left, (f - 1) as nat)->0.contains(q),
        subtree(s, s[t.i as int].right, (f - 1) as nat)->0.contains(w),
    ensures
        q != w,
        q != t,
        w != t,
{
    lemma_subtree_no_dup(s, Some(t), f);
    let la = subtree(s, s[t.i as int].left, (f - 1) as nat)->0;
    let lb = subtree(s, s[t.i as int].right, (f - 1) as nat)->0;
    let whole = subtree(s, Some(t), f)->0;
    assert(whole == la + seq![t] + lb);
    let i = choose|i: int| 0 <= i < la.len() && la[i] == q;
    let j = choose|j: int| 0 <= j < lb.len() && lb[j] == w;
    assert(whole[i] == q);
    assert(whole[la.len() as int] == t);
    assert(whole[la.len() + 1 + j] == w);
}

/// After the rotation at `x`, the subtree sequence of each proper ancestor
/// of `x` is unchanged.
#[verifier::spinoff_prover]
#[verifier::rlimit(100)]
proof fn lemma_rot_tree_up(s: Seq<Node>, x: NodeRef, d: Direction, j: int)
    requires
        wf(s),
        valid(s, x),
        slot(s[x.i as int], opp(d)) is Some,
        1 <= j < chain_of(s, x).len(),
    ensures
        subtree(rot_shape(s, x, d), Some(chain_of(s, x)[j]), sfuel(s)) == subtree(
            s,
            Some(chain_of(s, x)[j]),
            sfuel(s),
        ),
    decreases j,
{
    lemma_rot_context(s, x, d);
    lemma_rot_wf(s, x, d);
    let e = opp(d);
    let y = slot(s[x.i as int], e)->0;
    let c = slot(s[y.i as int], d);
    let p = s[x.i as int].parent;
    let s2 = rot_shape(s, x, d);
    let fu = sfuel(s);
    assert(sfuel(s2) == fu);
    assert(node_ok(s, x.i as int));
    assert(node_ok(s, y.i as int));
    assert(nref(x.i as int) == x);
    assert(nref(y.i as int) == y);
    lemma_pchain_shape(s, x, flen(s));
    lemma_pchain_no_dup(s, x, flen(s));
    let cx = chain_of(s, x);
    let t = cx[j];
    assert(valid(s, t));
    assert(p is Some && cx[1] == p->0) by {
        lemma_chain_step(s, x);
    }
    lemma_subtree_defined(s, Some(t));
    lemma_subtree_defined(s2, Some(t));
    lemma_subtree_no_dup(s, Some(t), fu);
    lemma_subtree_members(s, Some(t), fu);
    // t is not x, y or c
    assert(t != x);
    assert forall|k: int| 0 <= k < cx.len() implies cx[k] != y by {
        lemma_chain_step(s, y);
        lemma_pchain_no_dup(s, y, flen(s));
        let cy = chain_of(s, y);
        assert(cy == seq![y] + cx);
        assert(cy[0] == y);
        assert(cy[k + 1] == cx[k]);
    }
    assert(t != y);
    // the node below t on the chain
    let v = cx[j - 1];
    assert(s[v.i as int].parent == Some(t));
    assert(valid(s, v));
    assert(node_ok(s, v.i as int));
    assert(nref(v.i as int) == v);
    assert(s[t.i as int].left == Some(v) || s[t.i as int].right == Some(v));
    // x (and hence y) and p all live under v
    lemma_pchain_suffix(s, x, flen(s), j - 1);
    assert(chain_of(s, v) == cx.skip(j - 1));
    lemma_below_ancestor(s, x, j - 1);
    assert(subtree(s, Some(v), fu)->0.contains(x));
    lemma_subtree_members(s, Some(v), fu);
    assert(subtree(s, Some(x), fu)->0.to_set() <= subtree(s, Some(v), fu)->0.to_set());
    lemma_subtree_defined(s, Some(x));
    lemma_subtree_members(s, Some(x), fu);
    assert(subtree(s, Some(x), fu)->0.contains(y));
    assert(subtree(s, Some(v), fu)->0.to_set().contains(y));
    assert(subtree(s, Some(v), fu)->0.contains(y));
    if j > 1 {
        assert(subtree(s, Some(v), fu)->0.contains(p->0)) by {
            lemma_pchain_suffix(s, x, flen(s), 1);
            assert(chain_of(s, p->0) == cx.skip(1));
            assert(chain_of(s, p->0)[j - 2] == cx[j - 1]);
            lemma_below_ancestor(s, p->0, j - 2);
        }
    }
    // t's own child links are unchanged by the rotation
    assert(t != p->0 || j == 1);
    if j == 1 {
        // t is p itself: its changed slot now holds y, whose subtree equals
        // x's old one; the other slot is framed
        assert(t == p->0);
        let pd = dir_spec(s, t, x)->0;
        assert(s2[t.i as int] == with_slot(s[t.i as int], pd, Some(y)));
        assert(slot(s[t.i as int], pd) == Some(x)) by {
            match pd {
                Direction::Left => {},
                Direction::Right => {},
            }
        }
        let o2 = slot(s[t.i as int], opp(pd));
        lemma_rot_tree_local(s, x, d);
        // members of the other side avoid x, y and p
        let lo = subtree(s, o2, (fu - 1) as nat)->0;
        assert(subtree(s, o2, (fu - 1) as nat) is Some) by {
            match pd {
                Direction::Left => {},
                Direction::Right => {},
            }
        }
        assert forall|k: int| 0 <= k < lo.len() implies s2[(#[trigger] lo[k]).i as int].left
            == s[lo[k].i as int].left && s2[lo[k].i as int].right == s[lo[k].i
            as int].right by {
            let m = lo[k];
            lemma_subtree_mono(s, Some(x), (fu - 1) as nat, fu);
            match pd {
                Direction::Left => {
                    assert(subtree(s, s[t.i as int].left, (fu - 1) as nat)->0.contains(x));
                    assert(subtree(s, s[t.i as int].left, (fu - 1) as nat)->0.contains(y)) by {
                        assert(subtree(s, Some(x), (fu - 1) as nat)->0.contains(y));
                    }
                    lemma_sides_disjoint(s, t, fu, x, m);
                    lemma_sides_disjoint(s, t, fu, y, m);
                },
                Direction::Right => {
                    assert(subtree(s, s[t.i as int].right, (fu - 1) as nat)->0.contains(x));
                    assert(subtree(s, s[t.i as int].right, (fu - 1) as nat)->0.contains(y)) by {
                        assert(subtree(s, Some(x), (fu - 1) as nat)->0.contains(y));
                    }
                    lemma_sides_disjoint(s, t, fu, m, x);
                    lemma_sides_disjoint(s, t, fu, m, y);
                },
            }
            assert(m != t);
            assert(valid(s, m)) by {
                assert(subtree(s, Some(t), fu)->0.contains(m)) by {
                    match pd {
                        Direction::Left => {
                            let la = subtree(s, s[t.i as int].left, (fu - 1) as nat)->0;
                            assert(subtree(s, Some(t), fu)->0[la.len() + 1 + k] == m);
                        },
                        Direction::Right => {
                            assert(subtree(s, Some(t), fu)->0[k] == m);
                        },
                    }
                }
            }
        }
        lemma_subtree_frame(s, s2, o2, (fu - 1) as nat);
        // assemble
        lemma_subtree_mono(s, Some(x), (fu - 1) as nat, fu);
        assert(subtree(s2, Some(y), (fu - 1) as nat) is Some) by {
            match pd {
                Direction::Left => {},
                Direction::Right => {},
            }
        }
        lemma_subtree_mono(s2, Some(y), (fu - 1) as nat, fu);
        match pd {
            Direction::Left => {
                assert(subtree(s, Some(t), fu)->0 == subtree(s, Some(x), (fu - 1) as nat)->0
                    + seq![t] + subtree(s, o2, (fu - 1) as nat)->0);
                assert(subtree(s2, Some(t), fu)->0 == subtree(s2, Some(y), (fu - 1) as nat)->0
                    + seq![t] + subtree(s2, o2, (fu - 1) as nat)->0);
            },
            Direction::Right => {
                assert(subtree(s, Some(t), fu)->0 == subtree(s, o2, (fu - 1) as nat)->0
                    + seq![t] + subtree(s, Some(x), (fu - 1) as nat)->0);
                assert(subtree(s2, Some(t), fu)->0 == subtree(s2, o2, (fu - 1) as nat)->0
                    + seq![t] + subtree(s2, Some(y), (fu - 1) as nat)->0);
            },
        }
        assert(subtree(s2, Some(y), (fu - 1) as nat)->0 == subtree(s, Some(x), (fu - 1)
            as nat)->0);
        assert(subtree(s2, Some(t), fu)->0 =~= subtree(s, Some(t), fu)->0);
    } else {
        // t is strictly above p: both its slots keep their subtrees, the one
        // toward x by induction, the other by framing
        assert(t != p->0) by {
            assert(cx[1] == p->0);
        }
        lemma_rot_tree_up(s, x, d, j - 1);
        let vd = if s[t.i as int].left == Some(v) {
            Direction::Left
        } else {
            Direction::Right
        };
        assert(slot(s[t.i as int], vd) == Some(v));
        let o2 = slot(s[t.i as int], opp(vd));
        assert(subtree(s, o2, (fu - 1) as nat) is Some) by {
            match vd {
                Direction::Left => {},
                Direction::Right => {},
            }
        }
        assert(subtree(s, Some(v), (fu - 1) as nat) is Some) by {
            match vd {
                Direction::Left => {},
                Direction::Right => {},
            }
        }
        lemma_subtree_mono(s, Some(v), (fu - 1) as nat, fu);
        let lo = subtree(s, o2, (fu - 1) as nat)->0;
        assert forall|k: int| 0 <= k < lo.len() implies s2[(#[trigger] lo[k]).i as int].left
            == s[lo[k].i as int].left && s2[lo[k].i as int].right == s[lo[k].i
            as int].right by {
            let m = lo[k];
            match vd {
                Direction::Left => {
                    assert(subtree(s, s[t.i as int].left, (fu - 1) as nat)->0.contains(x));
                    assert(subtree(s, s[t.i as int].left, (fu - 1) as nat)->0.contains(y));
                    assert(subtree(s, s[t.i as int].left, (fu - 1) as nat)->0.contains(p->0));
                    lemma_sides_disjoint(s, t, fu, x, m);
                    lemma_sides_disjoint(s, t, fu, y, m);
                    lemma_sides_disjoint(s, t, fu, p->0, m);
                },
                Direction::Right => {
                    assert(subtree(s, s[t.i as int].right, (fu - 1) as nat)->0.contains(x));
                    assert(subtree(s, s[t.i as int].right, (fu - 1) as nat)->0.contains(y));
                    assert(subtree(s, s[t.i as int].right, (fu - 1) as nat)->0.contains(p->0));
                    lemma_sides_disjoint(s, t, fu, m, x);
                    lemma_sides_disjoint(s, t, fu, m, y);
                    lemma_sides_disjoint(s, t, fu, m, p->0);
                },
            }
            assert(valid(s, m)) by {
                assert(subtree(s, Some(t), fu)->0.contains(m)) by {
                    match vd {
                        Direction::Left => {
                            let la = subtree(s, s[t.i as int].left, (fu - 1) as nat)->0;
                            assert(subtree(s, Some(t), fu)->0[la.len() + 1 + k] == m);
                        },
                        Direction::Right => {
                            assert(subtree(s, Some(t), fu)->0[k] == m);
                        },
                    }
                }
            }
        }
        lemma_subtree_frame(s, s2, o2, (fu - 1) as nat);
        assert(subtree(s2, Some(v), (fu - 1) as nat) is Some) by {
            match vd {
                Direction::Left => {},
                Direction::Right => {},
            }
        }
        lemma_subtree_mono(s2, Some(v), (fu - 1) as nat, fu);
        match vd {
            Direction::Left => {
                assert(subtree(s, Some(t), fu)->0 == subtree(s, Some(v), (fu - 1) as nat)->0
                    + seq![t] + subtree(s, o2, (fu - 1) as nat)->0);
                assert(subtree(s2, Some(t), fu)->0 == subtree(s2, Some(v), (fu - 1) as nat)->0
                    + seq![t] + subtree(s2, o2, (fu - 1) as nat)->0);
            },
            Direction::Right => {
                assert(subtree(s, Some(t), fu)->0 == subtree(s, o2, (fu - 1) as nat)->0
                    + seq![t] + subtree(s, Some(v), (fu - 1) as nat)->0);
                assert(subtree(s2, Some(t), fu)->0 == subtree(s2, o2, (fu - 1) as nat)->0
                    + seq![t] + subtree(s2, Some(v), (fu - 1) as nat)->0);
            },
        }
        assert(subtree(s2, Some(v), (fu - 1) as nat)->0 == subtree(s, Some(v), (fu - 1)
            as nat)->0) by {
            assert(subtree(s2, Some(v), fu) == subtree(s, Some(v), fu));
        }
        assert(subtree(s2, Some(t), fu)->0 =~= subtree(s, Some(t), fu)->0);
    }
}

} // verus!

verus! {

/// What one rotation does to whole trees: the tree containing `x` keeps its
/// in-order node sequence (rooted at the promoted child if `x` was the
/// root), and every other tree is untouched.
#[verifier::spinoff_prover]
#[verifier::rlimit(100)]
pub proof fn lemma_rot_tree(s: Seq<Node>, x: NodeRef, d: Direction)
    requires
        wf(s),
        valid(s, x),
        slot(s[x.i as int], opp(d)) is Some,
    ensures
        ({
            let y = slot(s[x.i as int], opp(d))->0;
            let s2 = rot_shape(s, x, d);
            &&& (is_root(s, x) ==> tree_of(s2, y) == tree_of(s, x))
            &&& (forall|rr: NodeRef|
                is_root(s, rr) && rr != x && #[trigger] tree_of(s, rr).contains(x) ==> is_root(
                    s2,
                    rr,
                ) && tree_of(s2, rr) == tree_of(s, rr))
            &&& (forall|rr: NodeRef|
                is_root(s, rr) && !(#[trigger] tree_of(s, rr).contains(x)) ==> is_root(s2, rr)
                    && tree_of(s2, rr) == tree_of(s, rr))
        }),
{
    lemma_rot_context(s, x, d);
    lemma_rot_wf(s, x, d);
    let e = opp(d);
    let y = slot(s[x.i as int], e)->0;
    let c = slot(s[y.i as int], d);
    let p = s[x.i as int].parent;
    let s2 = rot_shape(s, x, d);
    let fu = sfuel(s);
    assert(sfuel(s2) == fu);
    assert(node_ok(s, x.i as int));
    assert(node_ok(s, y.i as int));
    assert(nref(x.i as int) == x);
    assert(nref(y.i as int) == y);
    if is_root(s, x) {
        lemma_rot_tree_local(s, x, d);
    }
    lemma_pchain_shape(s, x, flen(s));
    lemma_pchain_no_dup(s, x, flen(s));
    let cx = chain_of(s, x);
    assert forall|rr: NodeRef|
        is_root(s, rr) && rr != x && #[trigger] tree_of(s, rr).contains(x) implies is_root(
        s2,
        rr,
    ) && tree_of(s2, rr) == tree_of(s, rr) by {
        lemma_subtree_defined(s, Some(rr));
        lemma_subtree_ancestor(s, Some(rr), fu);
        assert(chain_of(s, x).contains(rr));
        let j = choose|j: int| 0 <= j < cx.len() && cx[j] == rr;
        lemma_pchain_suffix(s, x, flen(s), j);
        lemma_chain_root(s, rr);
        assert(chain_of(s, rr) == cx.skip(j));
        assert(cx.skip(j).len() == 1);
        assert(j == cx.len() - 1);
        assert(j >= 1);
        lemma_rot_tree_up(s, x, d, j);
    }
    assert forall|rr: NodeRef|
        is_root(s, rr) && !(#[trigger] tree_of(s, rr).contains(x)) implies is_root(s2, rr)
        && tree_of(s2, rr) == tree_of(s, rr) by {
        lemma_subtree_defined(s, Some(rr));
        lemma_subtree_members(s, Some(rr), fu);
        let l = tree_of(s, rr);
        assert forall|k: int| 0 <= k < l.len() implies s2[(#[trigger] l[k]).i as int].left
            == s[l[k].i as int].left && s2[l[k].i as int].right == s[l[k].i as int].right by {
            let m = l[k];
            assert(l.contains(m));
            assert(valid(s, m));
            assert(m != x);
            assert(m != y) by {
                if m == y {
                    assert(y != rr) by {
                        assert(s[y.i as int].parent == Some(x));
                    }
                    assert(l.contains(s[y.i as int].parent->0));
                }
            }
            assert(p is Some ==> m != p->0) by {
                if p is Some && m == p->0 {
                    assert(subtree(s, Some(p->0), fu)->0.to_set() <= l.to_set());
                    assert(subtree(s, Some(p->0), fu)->0.contains(x)) by {
                        assert(node_ok(s, p->0.i as int));
                        assert(s[p->0.i as int].left == Some(x) || s[p->0.i as int].right
                            == Some(x));
                        lemma_subtree_members(s, Some(p->0), fu);
                    }
                    assert(l.to_set().contains(x));
                    assert(l.contains(x));
                }
            }
        }
        lemma_subtree_frame(s, s2, Some(rr), fu);
    }
}

} // verus!

verus! {

/// A tree has exactly one root: any root whose tree contains `w` is the end
/// of `w`'s ancestor chain.
pub proof fn lemma_root_unique(s: Seq<Node>, w: NodeRef, rr: NodeRef)
    requires
        wf(s),
        valid(s, w),
        is_root(s, rr),
        tree_of(s, rr).contains(w),
    ensures
        rr == root_of(s, w),
{
    lemma_subtree_defined(s, Some(rr));
    lemma_subtree_ancestor(s, Some(rr), sfuel(s));
    assert(chain_of(s, w).contains(rr));
    let j = choose|j: int| 0 <= j < chain_of(s, w).len() && chain_of(s, w)[j] == rr;
    lemma_pchain_suffix(s, w, flen(s), j);
    lemma_chain_root(s, rr);
    assert(chain_of(s, w).skip(j) == seq![rr]);
    assert(chain_of(s, w).skip(j).len() == 1);
    assert(j == chain_of(s, w).len() - 1);
    assert(chain_of(s, w).skip(j)[0] == rr);
}

/// One rotation step as the splay loop sees it: the tree of the tracked root
/// `rt` keeps its node sequence, rooted at the promoted child whenever the
/// pivot was the root itself, and trees not containing the splayed node stay
/// untouched.
pub proof fn lemma_splay_rot_trees(s: Seq<Node>, w: NodeRef, piv: NodeRef, d: Direction, rt: NodeRef)
    requires
        wf(s),
        valid(s, piv),
        valid(s, w),
        slot(s[piv.i as int], opp(d)) is Some,
        is_root(s, rt),
        tree_of(s, rt).contains(w),
        tree_of(s, rt).contains(piv),
    ensures
        ({
            let s2 = rot_shape(s, piv, d);
            let rt2 = if rt == piv {
                slot(s[piv.i as int], opp(d))->0
            } else {
                rt
            };
            &&& is_root(s2, rt2)
            &&& tree_of(s2, rt2) == tree_of(s, rt)
            &&& (forall|rr: NodeRef|
                is_root(s, rr) && !(#[trigger] tree_of(s, rr).contains(w)) ==> is_root(s2, rr)
                    && tree_of(s2, rr) == tree_of(s, rr))
        }),
{
    lemma_rot_tree(s, piv, d);
    lemma_rot_wf(s, piv, d);
    let s2 = rot_shape(s, piv, d);
    let y = slot(s[piv.i as int], opp(d))->0;
    if rt == piv {
        assert(is_root(s2, y)) by {
            assert(is_root(s, piv));
        }
    }
    assert forall|rr: NodeRef|
        is_root(s, rr) && !(#[trigger] tree_of(s, rr).contains(w)) implies is_root(s2, rr)
        && tree_of(s2, rr) == tree_of(s, rr) by {
        assert(!tree_of(s, rr).contains(piv)) by {
            if tree_of(s, rr).contains(piv) {
                lemma_root_unique(s, piv, rr);
                lemma_root_unique(s, piv, rt);
                assert(rr == rt);
            }
        }
        if rr == piv {
            assert(tree_of(s, rr).contains(piv)) by {
                lemma_subtree_defined(s, Some(rr));
                lemma_subtree_members(s, Some(rr), sfuel(s));
            }
        }
    }
}

} // verus!

verus! {

/// Appending a fresh unlinked node keeps the forest well-formed; the new
/// node is the root of a one-node tree and every existing tree is untouched.
pub proof fn lemma_push_isolated(s: Seq<Node>, value: u64)
    requires
        wf(s),
        s.len() < usize::MAX,
    ensures
        ({
            let s2 = s.push(Node { value, parent: None, left: None, right: None });
            let nn = nref(s.len() as int);
            &&& wf(s2)
            &&& is_root(s2, nn)
            &&& tree_of(s2, nn) == seq![nn]
            &&& tree_values(s2, nn) == seq![value]
            &&& (forall|rr: NodeRef|
                is_root(s, rr) ==> #[trigger] is_root(s2, rr) && tree_of(s2, rr) == tree_of(
                    s,
                    rr,
                ) && tree_values(s2, rr) == tree_values(s, rr))
        }),
{
    let s2 = s.push(Node { value, parent: None, left: None, right: None });
    let nn = nref(s.len() as int);
    assert forall|i: int| 0 <= i < s2.len() implies node_ok(s2, i) by {
        if i < s.len() {
            assert(node_ok(s, i));
            assert(s2[i] == s[i]);
        }
    }
    assert forall|r: NodeRef| valid(s2, r) implies (#[trigger] pchain(s2, r, flen(s2))) is
        Some by {
        if r.i < s.len() {
            assert(pchain(s, r, flen(s)) is Some);
            lemma_pchain_shape(s, r, flen(s));
            let ch = chain_of(s, r);
            assert forall|k: int| 0 <= k < ch.len() implies s2[(#[trigger] ch[k]).i
                as int].parent == s[ch[k].i as int].parent by {
                assert(valid(s, ch[k]));
            }
            lemma_pchain_frame(s, s2, r, flen(s));
            lemma_pchain_mono(s2, r, flen(s), flen(s2));
        } else {
            assert(r == nn);
            assert(s2[r.i as int].parent is None);
        }
    }
    assert(wf(s2));
    assert(s2[nn.i as int].left is None && s2[nn.i as int].right is None);
    assert(subtree(s2, None, (sfuel(s2) - 1) as nat) == Some(Seq::<NodeRef>::empty()));
    assert(subtree(s2, Some(nn), sfuel(s2)) == Some(
        Seq::<NodeRef>::empty() + seq![nn] + Seq::<NodeRef>::empty(),
    ));
    assert(tree_of(s2, nn) =~= seq![nn]);
    assert(tree_values(s2, nn) =~= seq![value]);
    assert forall|rr: NodeRef| is_root(s, rr) implies #[trigger] is_root(s2, rr) && tree_of(
        s2,
        rr,
    ) == tree_of(s, rr) && tree_values(s2, rr) == tree_values(s, rr) by {
        lemma_subtree_defined(s, Some(rr));
        lemma_subtree_members(s, Some(rr), sfuel(s));
        let l = tree_of(s, rr);
        assert forall|k: int| 0 <= k < l.len() implies s2[(#[trigger] l[k]).i as int].left
            == s[l[k].i as int].left && s2[l[k].i as int].right == s[l[k].i as int].right by {
            assert(valid(s, l[k]));
        }
        lemma_subtree_frame(s, s2, Some(rr), sfuel(s));
        lemma_subtree_mono(s2, Some(rr), sfuel(s), sfuel(s2));
        assert(tree_values(s2, rr) =~= tree_values(s, rr));
    }
}

/// Attaching the tree rooted at `r` as the `d` child of a freshly appended
/// node: the new node becomes a root, and the combined tree's in-order value
/// sequence is `r`'s sequence with `value` appended on the proper side.
#[verifier::rlimit(60)]
pub proof fn lemma_attach(s: Seq<Node>, r: NodeRef, d: Direction, value: u64)
    requires
        wf(s),
        s.len() < usize::MAX,
        is_root(s, r),
    ensures
        ({
            let node = with_slot(
                Node { value, parent: None, left: None, right: None },
                d,
                Some(r),
            );
            let s2 = s.push(node);
            let nn = nref(s.len() as int);
            let s3 = s2.update(r.i as int, with_parent(s2[r.i as int], Some(nn)));
            &&& wf(s3)
            &&& is_root(s3, nn)
            &&& (forall|k: int| 0 <= k < s.len() ==> s3[k].value == s[k].value)
            &&& s3[s.len() as int].value == value
            &&& tree_values(s3, nn) == (match d {
                Direction::Left => tree_values(s, r) + seq![value],
                Direction::Right => seq![value] + tree_values(s, r),
            })
        }),
{
    let node = with_slot(Node { value, parent: None, left: None, right: None }, d, Some(r));
    let s2 = s.push(node);
    let nn = nref(s.len() as int);
    let s3 = s2.update(r.i as int, with_parent(s2[r.i as int], Some(nn)));
    assert(nref(r.i as int) == r);
    assert(nref(nn.i as int) == nn);
    assert(r != nn);
    // link consistency
    assert forall|i: int| 0 <= i < s3.len() implies node_ok(s3, i) by {
        if i < s.len() {
            assert(node_ok(s, i));
            if i == r.i as int {
                assert(s3[i].left == s[i].left && s3[i].right == s[i].right);
                assert(slot(s3[nn.i as int], d) == Some(r)) by {
                    match d {
                        Direction::Left => {},
                        Direction::Right => {},
                    }
                }
            } else {
                assert(s3[i] == s[i]);
                match s[i].left {
                    Some(w) => {
                        assert(s[w.i as int].parent == Some(nref(i)));
                        assert(w != r) by {
                            if w == r {
                                assert(s[r.i as int].parent is None);
                            }
                        }
                        assert(s3[w.i as int].parent == Some(nref(i)));
                    },
                    None => {},
                }
                match s[i].right {
                    Some(w) => {
                        assert(s[w.i as int].parent == Some(nref(i)));
                        assert(w != r) by {
                            if w == r {
                                assert(s[r.i as int].parent is None);
                            }
                        }
                        assert(s3[w.i as int].parent == Some(nref(i)));
                    },
                    None => {},
                }
                match s[i].parent {
                    Some(q) => {
                        assert(s[q.i as int].left == Some(nref(i)) || s[q.i as int].right
                            == Some(nref(i)));
                        assert(s3[q.i as int].left == s[q.i as int].left && s3[q.i
                            as int].right == s[q.i as int].right);
                    },
                    None => {},
                }
            }
        } else {
            assert(nref(i) == nn);
            assert(s3[r.i as int].parent == Some(nn));
            match d {
                Direction::Left => {},
                Direction::Right => {},
            }
        }
    }
    // acyclicity: old chains either end at r and gain one link, or are framed
    assert forall|z: NodeRef| valid(s3, z) implies (#[trigger] pchain(s3, z, flen(s3))) is
        Some by {
        if z.i < s.len() {
            assert(pchain(s, z, flen(s)) is Some);
            lemma_pchain_shape(s, z, flen(s));
            lemma_pchain_no_dup(s, z, flen(s));
            let ch = chain_of(s, z);
            if ch.last() == r {
                let ch2 = ch + seq![nn];
                assert forall|k: int| 0 <= k < ch2.len() implies valid(s3, #[trigger] ch2[k])
                    by {
                    if k < ch.len() {
                        assert(ch2[k] == ch[k]);
                        assert(valid(s, ch[k]));
                    } else {
                        assert(ch2[k] == nn);
                    }
                }
                assert forall|k: int| 0 <= k < ch2.len() - 1 implies s3[(#[trigger] ch2[k]).i
                    as int].parent == Some(ch2[k + 1]) by {
                    if k < ch.len() - 1 {
                        assert(ch2[k] == ch[k] && ch2[k + 1] == ch[k + 1]);
                        assert(ch[k] != r) by {
                            if ch[k] == r {
                                assert(s[ch[k].i as int].parent is Some);
                                assert(s[ch.last().i as int].parent is None);
                                assert(k == ch.len() - 1);
                            }
                        }
                        assert(s3[ch2[k].i as int].parent == s[ch[k].i as int].parent);
                    } else {
                        assert(ch2[k] == r);
                        assert(ch2[k + 1] == nn);
                    }
                }
                assert(ch2.last() == nn);
                assert(s3[nn.i as int].parent is None);
                lemma_pchain_build(s3, ch2, (ch2.len() - 1) as nat);
                lemma_chain_bounded(s, ch);
                lemma_pchain_mono(s3, z, (ch2.len() - 1) as nat, flen(s3));
                assert(ch2[0] == z);
            } else {
                assert forall|k: int| 0 <= k < ch.len() implies s3[(#[trigger] ch[k]).i
                    as int].parent == s[ch[k].i as int].parent by {
                    assert(valid(s, ch[k]));
                    assert(ch[k] != r) by {
                        if ch[k] == r {
                            lemma_pchain_suffix(s, z, flen(s), k);
                            lemma_chain_root(s, r);
                            assert(ch.skip(k) == seq![r]);
                            assert(ch.skip(k).len() == 1);
                            assert(k == ch.len() - 1);
                        }
                    }
                }
                lemma_pchain_frame(s, s3, z, flen(s));
                lemma_pchain_mono(s3, z, flen(s), flen(s3));
            }
        } else {
            assert(z == nn);
            assert(s3[z.i as int].parent is None);
        }
    }
    assert(wf(s3));
    // the combined tree: r's subtree is untouched, nn sits beside it
    lemma_subtree_defined(s, Some(r));
    lemma_subtree_members(s, Some(r), sfuel(s));
    let l = tree_of(s, r);
    assert forall|k: int| 0 <= k < l.len() implies s3[(#[trigger] l[k]).i as int].left == s[l[k].i
        as int].left && s3[l[k].i as int].right == s[l[k].i as int].right by {
        assert(valid(s, l[k]));
    }
    lemma_subtree_frame(s, s3, Some(r), sfuel(s));
    lemma_subtree_mono(s3, Some(r), sfuel(s), (sfuel(s3) - 1) as nat);
    assert(subtree(s3, Some(nn), sfuel(s3)) is Some) by {
        lemma_subtree_defined(s3, Some(nn));
    }
    assert(subtree(s3, None, (sfuel(s3) - 1) as nat) == Some(Seq::<NodeRef>::empty()));
    match d {
        Direction::Left => {
            assert(s3[nn.i as int].left == Some(r) && s3[nn.i as int].right is None);
            assert(tree_of(s3, nn) == subtree(s3, Some(r), (sfuel(s3) - 1) as nat)->0 + seq![nn]
                + Seq::<NodeRef>::empty());
            assert(tree_of(s3, nn) =~= l + seq![nn]);
            assert(tree_values(s3, nn) =~= tree_values(s, r) + seq![value]);
        },
        Direction::Right => {
            assert(s3[nn.i as int].right == Some(r) && s3[nn.i as int].left is None);
            assert(tree_of(s3, nn) == Seq::<NodeRef>::empty() + seq![nn] + subtree(
                s3,
                Some(r),
                (sfuel(s3) - 1) as nat,
            )->0);
            assert(tree_of(s3, nn) =~= seq![nn] + l);
            assert(tree_values(s3, nn) =~= seq![value] + tree_values(s, r));
        },
    }
}

} // verus!

verus! {

/// The link graph after splicing a fresh node holding `value` between `t`
/// and its `d` child, written as the exact sequence of updates the splice
/// performs: the new node is appended holding the old `d` child, that
/// child's parent (if any) is repointed at it, and `t`'s `d` slot takes it.
pub open spec fn splice_shape(s: Seq<Node>, t: NodeRef, d: Direction, value: u64) -> Seq<Node> {
    let c0 = slot(s[t.i as int], d);
    let node = with_parent(
        with_slot(Node { value, parent: None, left: None, right: None }, d, c0),
        Some(t),
    );
    let s2 = s.push(node);
    let nn = nref(s.len() as int);
    let s3 = match c0 {
        Some(c) => s2.update(c.i as int, with_parent(s2[c.i as int], Some(nn))),
        None => s2,
    };
    s3.update(t.i as int, with_slot(s3[t.i as int], d, Some(nn)))
}

/// Splicing a fresh node between `t` and its `d` child keeps the forest
/// well-formed.
#[verifier::spinoff_prover]
#[verifier::rlimit(100)]
pub proof fn lemma_splice(s: Seq<Node>, t: NodeRef, d: Direction, value: u64)
    requires
        wf(s),
        valid(s, t),
        s.len() < usize::MAX,
    ensures
        ({
            let c0 = slot(s[t.i as int], d);
            let nn = nref(s.len() as int);
            let s4 = splice_shape(s, t, d, value);
            &&& wf(s4)
            &&& s4.len() == s.len() + 1
            &&& (forall|k: int| 0 <= k < s.len() ==> s4[k].value == s[k].value)
            &&& s4[s.len() as int] == with_parent(
                with_slot(Node { value, parent: None, left: None, right: None }, d, c0),
                Some(t),
            )
            &&& s4[t.i as int] == with_slot(s[t.i as int], d, Some(nn))
            &&& (c0 is Some ==> s4[c0->0.i as int] == with_parent(s[c0->0.i as int], Some(nn)))
            &&& (forall|q: NodeRef|
                valid(s, q) && q != t && (c0 is Some ==> q != c0->0) ==> s4[(#[trigger] q.i)
                    as int] == s[q.i as int])
        }),
{
    let c0 = slot(s[t.i as int], d);
    let node = with_parent(
        with_slot(Node { value, parent: None, left: None, right: None }, d, c0),
        Some(t),
    );
    let s2 = s.push(node);
    let nn = nref(s.len() as int);
    let s3 = match c0 {
        Some(c) => s2.update(c.i as int, with_parent(s2[c.i as int], Some(nn))),
        None => s2,
    };
    let s4 = s3.update(t.i as int, with_slot(s3[t.i as int], d, Some(nn)));
    assert(nref(t.i as int) == t);
    assert(node_ok(s, t.i as int));
    assert(t != nn);
    // the old child's chain, and t's place outside it
    if c0 is Some {
        let c = c0->0;
        assert(nref(c.i as int) == c);
        assert(s[c.i as int].parent == Some(t)) by {
            match d {
                Direction::Left => {},
                Direction::Right => {},
            }
        }
        lemma_chain_step(s, c);
        lemma_pchain_no_dup(s, c, flen(s));
        assert(chain_of(s, c) == seq![c] + chain_of(s, t));
        assert forall|k: int| 0 <= k < chain_of(s, t).len() implies chain_of(s, t)[k] != c by {
            assert(chain_of(s, c)[0] == c);
            assert(chain_of(s, c)[k + 1] == chain_of(s, t)[k]);
        }
    }
    lemma_pchain_shape(s, t, flen(s));
    lemma_pchain_no_dup(s, t, flen(s));
    // link consistency
    assert forall|i: int| 0 <= i < s4.len() implies node_ok(s4, i) by {
        if i < s.len() {
            assert(node_ok(s, i));
            assert((i as usize) as int == i);
            let r = nref(i);
            assert(r.i as int == i);
            if i == t.i as int {
                assert(slot(s4[nn.i as int], d) == c0);
                assert(s4[nn.i as int].parent == Some(t));
                let w = slot(s[i], opp(d));
                match w {
                    Some(ww) => {
                        assert(s[ww.i as int].parent == Some(t)) by {
                            match d {
                                Direction::Left => {},
                                Direction::Right => {},
                            }
                        }
                        assert(ww != nn);
                        assert(c0 is Some ==> ww != c0->0) by {
                            assert(c0 is Some ==> slot(s[i], d) != slot(s[i], opp(d)));
                        }
                        assert(s4[ww.i as int].parent == Some(t));
                    },
                    None => {},
                }
                match s[i].parent {
                    Some(q) => {
                        assert(q != t);
                        assert(c0 is Some ==> q != c0->0) by {
                            if c0 is Some && q == c0->0 {
                                lemma_chain_step(s, t);
                                assert(chain_of(s, t)[1] == q);
                            }
                        }
                        assert(s4[q.i as int].left == s[q.i as int].left && s4[q.i
                            as int].right == s[q.i as int].right);
                    },
                    None => {},
                }
                match d {
                    Direction::Left => {},
                    Direction::Right => {},
                }
            } else if c0 is Some && i == c0->0.i as int {
                assert(s4[i].parent == Some(nn));
                assert(slot(s4[nn.i as int], d) == Some(c0->0));
                match s[i].left {
                    Some(w) => {
                        assert(s[w.i as int].parent == Some(c0->0));
                        assert(w != c0->0 && w != t && w != nn) by {
                            if w == t {
                                assert(s[t.i as int].parent == Some(c0->0));
                                lemma_chain_step(s, t);
                                assert(chain_of(s, t)[1] == c0->0);
                            }
                            if w == c0->0 {
                                assert(s[w.i as int].parent == Some(t));
                            }
                        }
                        assert(s4[w.i as int].parent == Some(c0->0));
                    },
                    None => {},
                }
                match s[i].right {
                    Some(w) => {
                        assert(s[w.i as int].parent == Some(c0->0));
                        assert(w != c0->0 && w != t && w != nn) by {
                            if w == t {
                                assert(s[t.i as int].parent == Some(c0->0));
                                lemma_chain_step(s, t);
                                assert(chain_of(s, t)[1] == c0->0);
                            }
                            if w == c0->0 {
                                assert(s[w.i as int].parent == Some(t));
                            }
                        }
                        assert(s4[w.i as int].parent == Some(c0->0));
                    },
                    None => {},
                }
                match d {
                    Direction::Left => {},
                    Direction::Right => {},
                }
            } else {
                assert(s4[i] == s[i]);
                match s[i].left {
                    Some(w) => {
                        assert(s[w.i as int].parent == Some(r));
                        assert(w != nn);
                        assert(c0 is Some ==> w != c0->0) by {
                            if c0 is Some && w == c0->0 {
                                assert(s[c0->0.i as int].parent == Some(t));
                            }
                        }
                        assert(s4[w.i as int].parent == Some(r));
                    },
                    None => {},
                }
                match s[i].right {
                    Some(w) => {
                        assert(s[w.i as int].parent == Some(r));
                        assert(w != nn);
                        assert(c0 is Some ==> w != c0->0) by {
                            if c0 is Some && w == c0->0 {
                                assert(s[c0->0.i as int].parent == Some(t));
                            }
                        }
                        assert(s4[w.i as int].parent == Some(r));
                    },
                    None => {},
                }
                match s[i].parent {
                    Some(q) => {
                        assert(s[q.i as int].left == Some(r) || s[q.i as int].right == Some(r));
                        if q == t {
                            assert(c0 is Some && r == c0->0 || slot(s[q.i as int], opp(d))
                                == Some(r)) by {
                                match d {
                                    Direction::Left => {},
                                    Direction::Right => {},
                                }
                            }
                            assert(slot(s4[q.i as int], opp(d)) == slot(s[q.i as int], opp(d)));
                            assert(s4[q.i as int].left == Some(r) || s4[q.i as int].right
                                == Some(r)) by {
                                match d {
                                    Direction::Left => {},
                                    Direction::Right => {},
                                }
                            }
                        } else {
                            assert(s4[q.i as int].left == s[q.i as int].left && s4[q.i
                                as int].right == s[q.i as int].right);
                        }
                    },
                    None => {},
                }
            }
        } else {
            assert(nref(i) == nn);
            assert(slot(s4[t.i as int], d) == Some(nn));
            if c0 is Some {
                assert(s4[c0->0.i as int].parent == Some(nn));
            }
            match d {
                Direction::Left => {},
                Direction::Right => {},
            }
        }
    }
    // acyclicity
    assert forall|z: NodeRef| valid(s4, z) implies (#[trigger] pchain(s4, z, flen(s4))) is
        Some by {
        lemma_splice_chain(s, t, d, value, z);
    }
    assert(wf(s4));
}

/// Helper for `lemma_splice`: every node still reaches a root.
#[verifier::spinoff_prover]
#[verifier::rlimit(100)]
proof fn lemma_splice_chain(s: Seq<Node>, t: NodeRef, d: Direction, value: u64, z: NodeRef)
    requires
        wf(s),
        valid(s, t),
        s.len() < usize::MAX,
        z.i < s.len() + 1,
    ensures
        ({
            let c0 = slot(s[t.i as int], d);
            let node = with_parent(
                with_slot(Node { value, parent: None, left: None, right: None }, d, c0),
                Some(t),
            );
            let s2 = s.push(node);
            let nn = nref(s.len() as int);
            let s3 = match c0 {
                Some(c) => s2.update(c.i as int, with_parent(s2[c.i as int], Some(nn))),
                None => s2,
            };
            let s4 = s3.update(t.i as int, with_slot(s3[t.i as int], d, Some(nn)));
            pchain(s4, z, flen(s4)) is Some
        }),
{
    let c0 = slot(s[t.i as int], d);
    let node = with_parent(
        with_slot(Node { value, parent: None, left: None, right: None }, d, c0),
        Some(t),
    );
    let s2 = s.push(node);
    let nn = nref(s.len() as int);
    let s3 = match c0 {
        Some(c) => s2.update(c.i as int, with_parent(s2[c.i as int], Some(nn))),
        None => s2,
    };
    let s4 = s3.update(t.i as int, with_slot(s3[t.i as int], d, Some(nn)));
    assert(nref(t.i as int) == t);
    assert(node_ok(s, t.i as int));
    // t's own chain avoids the old child, so it survives the splice
    lemma_pchain_shape(s, t, flen(s));
    lemma_pchain_no_dup(s, t, flen(s));
    let cht = chain_of(s, t);
    if c0 is Some {
        let c = c0->0;
        assert(s[c.i as int].parent == Some(t)) by {
            match d {
                Direction::Left => {},
                Direction::Right => {},
            }
        }
        lemma_chain_step(s, c);
        lemma_pchain_no_dup(s, c, flen(s));
        assert(chain_of(s, c) == seq![c] + cht);
        assert forall|k: int| 0 <= k < cht.len() implies cht[k] != c by {
            assert(chain_of(s, c)[0] == c);
            assert(chain_of(s, c)[k + 1] == cht[k]);
        }
    }
    assert forall|k: int| 0 <= k < cht.len() implies s4[(#[trigger] cht[k]).i as int].parent
        == s[cht[k].i as int].parent by {
        assert(valid(s, cht[k]));
        assert(cht[k] != nn);
    }
    lemma_pchain_frame(s, s4, t, flen(s));
    lemma_pchain_mono(s4, t, flen(s), flen(s4));
    if z == nn {
        assert(s4[nn.i as int].parent == Some(t));
        lemma_pchain_extend(s4, nn);
    } else {
        assert(valid(s, z));
        lemma_pchain_shape(s, z, flen(s));
        lemma_pchain_no_dup(s, z, flen(s));
        let ch = chain_of(s, z);
        if c0 is Some && ch.contains(c0->0) {
            let c = c0->0;
            let k = choose|k: int| 0 <= k < ch.len() && ch[k] == c;
            lemma_pchain_suffix(s, z, flen(s), k);
            assert(chain_of(s, c) == ch.skip(k));
            assert(ch.skip(k)[1] == chain_of(s, c)[1]);
            assert(chain_of(s, c)[1] == t) by {
                lemma_chain_step(s, c);
            }
            assert(ch[k + 1] == t);
            let nch = ch.take(k + 1) + seq![nn] + ch.skip(k + 1);
            assert forall|j: int| 0 <= j < nch.len() implies valid(s4, #[trigger] nch[j]) by {
                if j <= k {
                    assert(nch[j] == ch[j]);
                    assert(valid(s, ch[j]));
                } else if j == k + 1 {
                    assert(nch[j] == nn);
                } else {
                    assert(nch[j] == ch[j - 1]);
                    assert(valid(s, ch[j - 1]));
                }
            }
            assert forall|j: int| 0 <= j < nch.len() - 1 implies s4[(#[trigger] nch[j]).i
                as int].parent == Some(nch[j + 1]) by {
                if j < k {
                    assert(nch[j] == ch[j] && nch[j + 1] == ch[j + 1]);
                    assert(ch[j] != c && ch[j] != nn);
                } else if j == k {
                    assert(nch[j] == c && nch[j + 1] == nn);
                } else if j == k + 1 {
                    assert(nch[j] == nn && nch[j + 1] == ch[k + 1]);
                } else {
                    assert(nch[j] == ch[j - 1] && nch[j + 1] == ch[j]);
                    assert(ch[j - 1] != c && ch[j - 1] != nn);
                }
            }
            assert(nch.last() == ch.last());
            assert(ch.last() != c && ch.last() != nn);
            assert(s4[nch.last().i as int].parent is None);
            assert(nch[0] == ch[0]);
            lemma_pchain_build(s4, nch, (nch.len() - 1) as nat);
            lemma_chain_bounded(s, ch);
            lemma_pchain_mono(s4, z, (nch.len() - 1) as nat, flen(s4));
        } else {
            assert forall|k: int| 0 <= k < ch.len() implies s4[(#[trigger] ch[k]).i
                as int].parent == s[ch[k].i as int].parent by {
                assert(valid(s, ch[k]));
                assert(ch[k] != nn);
                assert(c0 is Some ==> ch[k] != c0->0);
            }
            lemma_pchain_frame(s, s4, z, flen(s));
            lemma_pchain_mono(s4, z, flen(s), flen(s4));
        }
    }
}

} // verus!

verus! {

/// Mutual link consistency, the invariant every operation preserves: a
/// node's child points back at it with its parent slot, a node's parent
/// holds it in one of its child slots, and a node's parent slot is `None`
/// exactly when it is the root of its containing tree.
pub proof fn lemma_link_consistency(s: Seq<Node>, n: NodeRef, m: NodeRef)
    requires
        wf(s),
        valid(s, n),
    ensures
        s[n.i as int].left == Some(m) ==> valid(s, m) && s[m.i as int].parent == Some(n),
        s[n.i as int].right == Some(m) ==> valid(s, m) && s[m.i as int].parent == Some(n),
        s[n.i as int].parent == Some(m) ==> valid(s, m) && (s[m.i as int].left == Some(n)
            || s[m.i as int].right == Some(n)),
        is_root(s, n) <==> n == root_of(s, n),
{
    assert(node_ok(s, n.i as int));
    assert(nref(n.i as int) == n);
    lemma_pchain_shape(s, n, flen(s));
    if s[n.i as int].parent is None {
        lemma_chain_root(s, n);
    } else {
        lemma_chain_step(s, n);
        lemma_pchain_no_dup(s, n, flen(s));
        let p = s[n.i as int].parent->0;
        let ch = chain_of(s, n);
        assert(ch == seq![n] + chain_of(s, p));
        if n == root_of(s, n) {
            assert(ch[0] == n && ch.last() == n);
            assert(ch.len() >= 2);
        }
    }
}

/// Rotating a node one way and then rotating the promoted child back the
/// other way restores the link graph exactly.
#[verifier::spinoff_prover]
#[verifier::rlimit(100)]
pub proof fn lemma_rot_inverse(s: Seq<Node>, x: NodeRef, d: Direction)
    requires
        wf(s),
        valid(s, x),
        slot(s[x.i as int], opp(d)) is Some,
    ensures
        rot_shape(rot_shape(s, x, d), slot(s[x.i as int], opp(d))->0, opp(d)) == s,
{
    lemma_rot_context(s, x, d);
    lemma_rot_wf(s, x, d);
    let e = opp(d);
    let y = slot(s[x.i as int], e)->0;
    let c = slot(s[y.i as int], d);
    let p = s[x.i as int].parent;
    let s2 = rot_shape(s, x, d);
    assert(node_ok(s, x.i as int));
    assert(node_ok(s, y.i as int));
    assert(nref(x.i as int) == x);
    assert(nref(y.i as int) == y);
    // the second rotation, pivot y, promotes x back
    assert(slot(s2[y.i as int], opp(opp(d))) == Some(x));
    lemma_rot_context(s2, y, opp(d));
    lemma_rot_wf(s2, y, opp(d));
    let s3 = rot_shape(s2, y, opp(d));
    // the second rotation's cast: promoted x, grandchild c, parent p
    assert(slot(s2[x.i as int], opp(d)) == c);
    assert(s2[y.i as int].parent == p);
    let pd = if p is Some {
        dir_spec(s, p->0, x)->0
    } else {
        Direction::Left
    };
    if p is Some {
        assert(s2[p->0.i as int] == with_slot(s[p->0.i as int], pd, Some(y)));
        assert(dir_spec(s2, p->0, y) == Some(pd)) by {
            assert(slot(s2[p->0.i as int], pd) == Some(y)) by {
                match pd {
                    Direction::Left => {},
                    Direction::Right => {},
                }
            }
            match pd {
                Direction::Left => {},
                Direction::Right => {
                    assert(s2[p->0.i as int].left != Some(y)) by {
                        if s2[p->0.i as int].left == Some(y) {
                            assert(s[p->0.i as int].left == Some(y));
                            assert(node_ok(s, p->0.i as int));
                            assert(nref(p->0.i as int) == p->0);
                            assert(s[y.i as int].parent == Some(p->0));
                        }
                    }
                },
            }
        }
        assert(s3[p->0.i as int] == with_slot(s2[p->0.i as int], pd, Some(x)));
        assert(s3[p->0.i as int] == s[p->0.i as int]) by {
            match pd {
                Direction::Left => {},
                Direction::Right => {},
            }
        }
    }
    assert(s3[y.i as int] == with_slot(with_parent(s2[y.i as int], Some(x)), d, c));
    assert(s3[y.i as int] == s[y.i as int]) by {
        match d {
            Direction::Left => {},
            Direction::Right => {},
        }
    }
    assert(s3[x.i as int] == with_parent(with_slot(s2[x.i as int], opp(d), Some(y)), p));
    assert(s3[x.i as int] == s[x.i as int]) by {
        match d {
            Direction::Left => {},
            Direction::Right => {},
        }
    }
    if c is Some {
        assert(s3[c->0.i as int] == with_parent(s2[c->0.i as int], Some(y)));
        assert(s3[c->0.i as int] == s[c->0.i as int]);
    }
    assert forall|k: int| 0 <= k < s.len() implies s3[k] == s[k] by {
        assert((k as usize) as int == k);
        let r = nref(k);
        assert(r.i as int == k);
        if k != x.i as int && k != y.i as int && (c is Some ==> k != c->0.i as int) && (p is Some
            ==> k != p->0.i as int) {
            assert(r != x && r != y && (c is Some ==> r != c->0) && (p is Some ==> r != p->0));
            assert(s2[k].parent == s[k].parent && s2[k].left == s[k].left && s2[k].right
                == s[k].right);
            assert(s2[k].value == s[k].value);
            assert(s3[k].parent == s2[k].parent && s3[k].left == s2[k].left && s3[k].right
                == s2[k].right);
            assert(s3[k].value == s2[k].value);
            assert(s3[k] == s[k]);
        }
    }
    assert(s3 =~= s);
}

} // verus!

verus! {

/// The in-order effect of a splice: the spliced node appears immediately
/// before `t` (side `Left`) or immediately after it (side `Right`) in `t`'s
/// subtree sequence; the two outer parts are `t`'s old child subtrees.
#[verifier::spinoff_prover]
#[verifier::rlimit(60)]
pub proof fn lemma_splice_values(s: Seq<Node>, t: NodeRef, d: Direction, value: u64)
    requires
        wf(s),
        valid(s, t),
        s.len() < usize::MAX,
    ensures
        ({
            let s4 = splice_shape(s, t, d, value);
            let nn = nref(s.len() as int);
            &&& subtree(s4, Some(t), sfuel(s4)) is Some
            &&& subtree(s4, Some(t), sfuel(s4))->0 == (match d {
                Direction::Left => subtree(s, s[t.i as int].left, sfuel(s))->0 + seq![nn, t]
                    + subtree(s, s[t.i as int].right, sfuel(s))->0,
                Direction::Right => subtree(s, s[t.i as int].left, sfuel(s))->0 + seq![t, nn]
                    + subtree(s, s[t.i as int].right, sfuel(s))->0,
            })
        }),
{
    lemma_splice(s, t, d, value);
    let s4 = splice_shape(s, t, d, value);
    let nn = nref(s.len() as int);
    let c0 = slot(s[t.i as int], d);
    assert(nref(t.i as int) == t);
    assert(t != nn);
    lemma_subtree_defined(s, Some(t));
    lemma_subtree_defined(s4, Some(t));
    lemma_subtree_no_dup(s, Some(t), sfuel(s));
    let fu = sfuel(s);
    let la = subtree(s, s[t.i as int].left, (fu - 1) as nat)->0;
    let lb = subtree(s, s[t.i as int].right, (fu - 1) as nat)->0;
    let whole = subtree(s, Some(t), fu)->0;
    assert(whole == la + seq![t] + lb);
    assert(whole[la.len() as int] == t);
    lemma_subtree_mono(s, s[t.i as int].left, (fu - 1) as nat, fu);
    lemma_subtree_mono(s, s[t.i as int].right, (fu - 1) as nat, fu);
    // neither child part contains t, so their subtrees are framed into s4
    lemma_splice_side_frame(s, t, d, value, s[t.i as int].left);
    lemma_splice_side_frame(s, t, d, value, s[t.i as int].right);
    // unfold the new tree: t's d slot holds nn, nn's d slot holds the old child
    let fu4 = sfuel(s4);
    assert(s4[t.i as int] == with_slot(s[t.i as int], d, Some(nn)));
    assert(s4[nn.i as int] == with_parent(
        with_slot(Node { value, parent: None, left: None, right: None }, d, c0),
        Some(t),
    ));
    assert(subtree(s4, Some(nn), (fu4 - 1) as nat) is Some);
    lemma_subtree_mono(s4, Some(nn), (fu4 - 1) as nat, fu4);
    match d {
        Direction::Left => {
            assert(s4[t.i as int].left == Some(nn) && s4[t.i as int].right == s[t.i
                as int].right);
            assert(s4[nn.i as int].left == c0 && s4[nn.i as int].right is None);
            assert(subtree(s4, Some(t), fu4)->0 == subtree(s4, Some(nn), (fu4 - 1) as nat)->0
                + seq![t] + subtree(s4, s[t.i as int].right, (fu4 - 1) as nat)->0);
            assert(subtree(s4, Some(nn), (fu4 - 1) as nat)->0 == subtree(
                s4,
                c0,
                (fu4 - 2) as nat,
            )->0 + seq![nn] + Seq::<NodeRef>::empty()) by {
                assert(subtree(s4, None, (fu4 - 2) as nat) == Some(Seq::<NodeRef>::empty()));
            }
            assert(subtree(s4, c0, (fu4 - 2) as nat) == subtree(s, c0, (fu - 1) as nat)) by {
                assert(c0 == s[t.i as int].left);
                assert(subtree(s4, c0, (fu - 1) as nat) == subtree(s, c0, (fu - 1) as nat));
                lemma_subtree_mono(s4, c0, (fu - 1) as nat, (fu4 - 2) as nat);
            }
            assert(subtree(s4, s[t.i as int].right, (fu4 - 1) as nat) == subtree(
                s,
                s[t.i as int].right,
                (fu - 1) as nat,
            )) by {
                assert(subtree(s4, s[t.i as int].right, (fu - 1) as nat) == subtree(
                    s,
                    s[t.i as int].right,
                    (fu - 1) as nat,
                ));
                lemma_subtree_mono(s4, s[t.i as int].right, (fu - 1) as nat, (fu4 - 1) as nat);
            }
            assert(subtree(s4, Some(t), fu4)->0 =~= subtree(s, s[t.i as int].left, fu)->0
                + seq![nn, t] + subtree(s, s[t.i as int].right, fu)->0);
        },
        Direction::Right => {
            assert(s4[t.i as int].right == Some(nn) && s4[t.i as int].left == s[t.i
                as int].left);
            assert(s4[nn.i as int].right == c0 && s4[nn.i as int].left is None);
            assert(subtree(s4, Some(t), fu4)->0 == subtree(s4, s[t.i as int].left, (fu4 - 1)
                as nat)->0 + seq![t] + subtree(s4, Some(nn), (fu4 - 1) as nat)->0);
            assert(subtree(s4, Some(nn), (fu4 - 1) as nat)->0 == Seq::<NodeRef>::empty()
                + seq![nn] + subtree(s4, c0, (fu4 - 2) as nat)->0) by {
                assert(subtree(s4, None, (fu4 - 2) as nat) == Some(Seq::<NodeRef>::empty()));
            }
            assert(subtree(s4, c0, (fu4 - 2) as nat) == subtree(s, c0, (fu - 1) as nat)) by {
                assert(c0 == s[t.i as int].right);
                assert(subtree(s4, c0, (fu - 1) as nat) == subtree(s, c0, (fu - 1) as nat));
                lemma_subtree_mono(s4, c0, (fu - 1) as nat, (fu4 - 2) as nat);
            }
            assert(subtree(s4, s[t.i as int].left, (fu4 - 1) as nat) == subtree(
                s,
                s[t.i as int].left,
                (fu - 1) as nat,
            )) by {
                assert(subtree(s4, s[t.i as int].left, (fu - 1) as nat) == subtree(
                    s,
                    s[t.i as int].left,
                    (fu - 1) as nat,
                ));
                lemma_subtree_mono(s4, s[t.i as int].left, (fu - 1) as nat, (fu4 - 1) as nat);
            }
            assert(subtree(s4, Some(t), fu4)->0 =~= subtree(s, s[t.i as int].left, fu)->0
                + seq![t, nn] + subtree(s, s[t.i as int].right, fu)->0);
        },
    }
}

} // verus!

verus! {

/// Helper for `lemma_splice_values`: the subtree hanging from either child
/// link of `t` is untouched by the splice.
proof fn lemma_splice_side_frame(
    s: Seq<Node>,
    t: NodeRef,
    d: Direction,
    value: u64,
    o: Option<NodeRef>,
)
    requires
        wf(s),
        valid(s, t),
        s.len() < usize::MAX,
        o == s[t.i as int].left || o == s[t.i as int].right,
    ensures
        subtree(splice_shape(s, t, d, value), o, (sfuel(s) - 1) as nat) == subtree(
            s,
            o,
            (sfuel(s) - 1) as nat,
        ),
{
    lemma_splice(s, t, d, value);
    let s4 = splice_shape(s, t, d, value);
    let nn = nref(s.len() as int);
    let c0 = slot(s[t.i as int], d);
    assert(nref(t.i as int) == t);
    lemma_subtree_defined(s, Some(t));
    lemma_subtree_no_dup(s, Some(t), sfuel(s));
    lemma_subtree_members(s, Some(t), sfuel(s));
    let fu = sfuel(s);
    let la = subtree(s, s[t.i as int].left, (fu - 1) as nat)->0;
    let whole = subtree(s, Some(t), fu)->0;
    assert(whole[la.len() as int] == t);
    let l = subtree(s, o, (fu - 1) as nat)->0;
    assert forall|k: int| 0 <= k < l.len() implies s4[(#[trigger] l[k]).i as int].left == s[l[k].i
        as int].left && s4[l[k].i as int].right == s[l[k].i as int].right by {
        let m = l[k];
        assert(m != t && whole.contains(m)) by {
            if o == s[t.i as int].left {
                assert(whole[k] == m);
            } else {
                assert(whole[la.len() + 1 + k] == m);
            }
        }
        assert(valid(s, m));
        if c0 is Some && m == c0->0 {
            assert(s4[m.i as int] == with_parent(s[m.i as int], Some(nn)));
        } else {
            assert(m != t && (c0 is Some ==> m != c0->0));
            assert(s4[m.i as int] == s[m.i as int]);
        }
    }
    lemma_subtree_frame(s, s4, o, (fu - 1) as nat);
}

} // verus!
