//! A vector-based tree collection with verified post-order, depth-first
//! traversal.
//!
//! Nodes live in a single growable arena and are addressed by integer
//! indices; each node owns one payload and an ordered list of child
//! indices. Construction is append-only. Traversals are explicit state
//! machines that are advanced against the arena and yield proxy handles
//! with different capabilities (read or write on the visited node,
//! optional read access to its children), guarded by a runtime counter
//! that detects unsafe ancestor-reads-live-descendant patterns.

use vstd::prelude::*;

mod copy;
mod laws;
mod model;
mod proxy;
mod render;
mod traverse;
mod tree;

verus! {

pub use crate::copy::RepEntry;
pub use crate::copy::copy_post;
pub use crate::copy::replay;
pub use crate::copy::shifted;
pub use crate::copy::sizes_sum;
pub use crate::copy::trace_post;
pub use crate::laws::children_first;
pub use crate::laws::is_above;
pub use crate::laws::is_parent;
pub use crate::laws::lemma_append_built_traversable;
pub use crate::laws::lemma_grown_append_built;
pub use crate::laws::lemma_postorder_visits_once;
pub use crate::laws::lemma_subtree_sizes;
pub use crate::laws::lemma_traversal_deterministic;
pub use crate::laws::occurs;
pub use crate::laws::occurs_before;
pub use crate::laws::subtree_sizes;
pub use crate::model::postorder;
pub use crate::model::postorder_of;
pub use crate::model::traversable;
pub use crate::model::traversable_of;
pub use crate::proxy::NodeProxy;
pub use crate::proxy::NodeProxyMut;
pub use crate::proxy::NodeProxySimple;
pub use crate::proxy::NodeProxySimpleMut;
pub use crate::render::dec_str;
pub use crate::render::list_str;
pub use crate::render::node_str;
pub use crate::render::node_to_string;
pub use crate::render::tree_to_string;
pub use crate::render::tree_to_string_index;
pub use crate::traverse::VecTreePoDfsIter;
pub use crate::traverse::VisitNode;
pub use crate::traverse::evs_wf;
pub use crate::traverse::max_depth;
pub use crate::traverse::plan_ok;
pub use crate::traverse::rem;
pub use crate::tree::Node;
pub use crate::tree::NodeModel;
pub use crate::tree::TreeError;
pub use crate::tree::TreeModel;
pub use crate::tree::VecTree;
pub use crate::tree::append_built;

} // verus!
