//! A diagnostic tree printer: an indented, rotated in-order rendering of a
//! subtree — right subtree above, node value, left subtree below, with the
//! indentation growing by two spaces per level.

use vstd::prelude::*;

use crate::node::{opt_valid, valid, Forest, Node, NodeRef};
use crate::shape::{subtree, wf};

verus! {

/// The decimal digit character for `d`.
pub open spec fn digit_char(d: int) -> char {
    if d == 0 {
        '0'
    } else if d == 1 {
        '1'
    } else if d == 2 {
        '2'
    } else if d == 3 {
        '3'
    } else if d == 4 {
        '4'
    } else if d == 5 {
        '5'
    } else if d == 6 {
        '6'
    } else if d == 7 {
        '7'
    } else if d == 8 {
        '8'
    } else {
        '9'
    }
}

/// The decimal rendering of `n`, most significant digit first.
pub open spec fn dec_spec(n: int) -> Seq<char>
    decreases n,
{
    if n < 10 {
        seq![digit_char(n)]
    } else {
        dec_spec(n / 10) + seq![digit_char(n % 10)]
    }
}

/// `n` levels of two-space indentation.
pub open spec fn indent_spec(n: nat) -> Seq<char>
    decreases n,
{
    if n == 0 {
        Seq::empty()
    } else {
        indent_spec((n - 1) as nat) + seq![' ', ' ']
    }
}

/// The rendering of the subtree hanging from `o` at `depth`: right subtree
/// first, then the indented value on a line of its own, then the left
/// subtree.
pub open spec fn render_spec(s: Seq<Node>, o: Option<NodeRef>, depth: nat, fuel: nat) -> Seq<char>
    decreases fuel,
{
    match o {
        None => Seq::empty(),
        Some(r) => {
            if fuel == 0 || !valid(s, r) {
                Seq::empty()
            } else {
                render_spec(s, s[r.i as int].right, (depth + 1) as nat, (fuel - 1) as nat)
                    + indent_spec(depth) + dec_spec(s[r.i as int].value as int) + seq!['\n']
                    + render_spec(s, s[r.i as int].left, (depth + 1) as nat, (fuel - 1) as nat)
            }
        },
    }
}

/// The single-character string for decimal digit `d`.
fn digit_str(d: u64) -> (r: &'static str)
    requires
        d < 10,
    ensures
        r@ == seq![digit_char(d as int)],
{
    if d == 0 {
        proof {
            reveal_strlit("0");
        }
        "0"
    } else if d == 1 {
        proof {
            reveal_strlit("1");
        }
        "1"
    } else if d == 2 {
        proof {
            reveal_strlit("2");
        }
        "2"
    } else if d == 3 {
        proof {
            reveal_strlit("3");
        }
        "3"
    } else if d == 4 {
        proof {
            reveal_strlit("4");
        }
        "4"
    } else if d == 5 {
        proof {
            reveal_strlit("5");
        }
        "5"
    } else if d == 6 {
        proof {
            reveal_strlit("6");
        }
        "6"
    } else if d == 7 {
        proof {
            reveal_strlit("7");
        }
        "7"
    } else if d == 8 {
        proof {
            reveal_strlit("8");
        }
        "8"
    } else {
        proof {
            reveal_strlit("9");
        }
        "9"
    }
}

/// The decimal rendering of `n`.
pub fn u64_to_string(n: u64) -> (r: String)
    ensures
        r@ == dec_spec(n as int),
    decreases n,
{
    if n < 10 {
        String::from_str(digit_str(n))
    } else {
        let mut s = u64_to_string(n / 10);
        s.append(digit_str(n % 10));
        s
    }
}

/// A printable handle on an optional subtree root.
#[derive(Clone, Copy, Debug)]
pub struct Tree {
    pub root: Option<NodeRef>,
}

impl Tree {
    /// The printable tree rooted at `r`.
    pub fn new(r: NodeRef) -> (t: Tree)
        ensures
            t.root == Some(r),
    {
        Tree { root: Some(r) }
    }

    /// Renders the subtree at `depth`, right subtree first, one indented
    /// value per line.
    #[verifier::loop_isolation(false)]
    pub fn fmt_rec(&self, f: &Forest, depth: usize, fuel: usize) -> (r: String)
        requires
            subtree(f@, self.root, fuel as nat) is Some,
            depth + fuel <= usize::MAX,
        ensures
            r@ == render_spec(f@, self.root, depth as nat, fuel as nat),
        decreases fuel,
    {
        match self.root {
            None => {
                let r = String::new();
                proof {
                    assert(r@ =~= render_spec(f@, self.root, depth as nat, fuel as nat));
                }
                r
            },
            Some(node) => {
                let n = node.node(f);
                let ghost rs = render_spec(f@, n.right, (depth + 1) as nat, (fuel - 1) as nat);
                let mut out = (Tree { root: n.right }).fmt_rec(f, depth + 1, fuel - 1);
                let mut k: usize = 0;
                proof {
                    assert(out@ =~= rs + indent_spec(0));
                }
                while k < depth
                    invariant
                        k <= depth,
                        out@ == rs + indent_spec(k as nat),
                    decreases depth - k,
                {
                    proof {
                        reveal_strlit("  ");
                        assert("  "@ =~= seq![' ', ' ']);
                    }
                    out.append("  ");
                    k = k + 1;
                }
                let digits = u64_to_string(n.value);
                out.append(digits.as_str());
                proof {
                    reveal_strlit("\n");
                    assert("\n"@ =~= seq!['\n']);
                }
                out.append("\n");
                let left_part = (Tree { root: n.left }).fmt_rec(f, depth + 1, fuel - 1);
                out.append(left_part.as_str());
                proof {
                    assert(out@ =~= render_spec(f@, self.root, depth as nat, fuel as nat));
                }
                out
            },
        }
    }

    /// Renders the whole subtree this handle names, starting at depth zero.
    pub fn render(&self, f: &Forest) -> (r: String)
        requires
            wf(f@),
            opt_valid(f@, self.root),
        ensures
            r@ == render_spec(f@, self.root, 0, f@.len() as nat),
    {
        proof {
            if self.root is Some {
                crate::shape::lemma_subtree_defined_at(f@, self.root->0);
                crate::shape::lemma_subtree_mono(
                    f@,
                    self.root,
                    (f@.len() - crate::shape::depth_of(f@, self.root->0)) as nat,
                    f@.len() as nat,
                );
            }
        }
        let fuel = f.len();
        self.fmt_rec(f, 0, fuel)
    }
}

} // verus!
