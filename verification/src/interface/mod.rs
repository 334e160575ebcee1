//! The concrete interfaces of the object model.
//!
//! An interface is a struct whose node records, in its leading tag, the
//! identifier of the topmost interface the node was constructed as. A
//! derived interface embeds its supertype's representation — here, every
//! interface is carried by the same `Node` slot, and a handle's type
//! parameter names the interface it claims; the recorded tag is what a cast
//! checks that claim against. Each interface reports a process-unique
//! positive identifier and registers itself, together with the identifier of
//! the interface it inherits from, exactly once at startup (see the crate
//! root's `init`).

mod node;
mod document;
mod element;

pub use node::Node;
pub use document::Document;
pub use element::Element;

pub use node::{child_at_ok, child_pos, detached, inserted_at, tree_wf, unlinked_at, wf_node};
pub use node::{walk_next, walk_prev};
pub use node::{
    lemma_alloc_preserves_wf, lemma_append_detach_round_trip, lemma_detached_not_child,
    lemma_sibling_chain, lemma_walk_next_from, lemma_walk_prev_from,
};
pub use document::is_element_tag;
