//! A self-adjusting binary search tree (splay tree) over an arena of nodes
//! linked by parent/child handles, together with a minimal link-cut scaffold
//! that reuses the same rotation engine, and a diagnostic tree printer.
//!
//! Nodes live in a [`node::Forest`] arena and are addressed by copyable
//! [`node::NodeRef`] handles. The structural well-formedness of the link
//! graph (mutual parent/child consistency and acyclicity) is captured by
//! [`shape::wf`], which every tree operation preserves.

pub mod link_cut;
pub mod node;
pub mod printer;
pub mod search;
pub mod shape;
