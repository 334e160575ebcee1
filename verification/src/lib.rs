//! A foundational object model for a tree-shaped document structure: a
//! reference-counted ownership handle over an arena of nodes, a runtime
//! interface hierarchy with is-a checks and casting, and tree mutations that
//! preserve the parent/child/sibling linkage invariants.
//!
//! Three components, in dependency order:
//! - [`Dom`] and [`DomStore`]: shared-ownership handles into an arena that
//!   owns every allocation outright; a handle is a stable slot index, and
//!   each slot carries a share count that `Dom::new`, `Dom::clone` and
//!   `Dom::from` account for exactly.
//! - [`Hierarchy`], [`Interface`], [`Cast`]: an explicitly passed registry
//!   mapping each interface's identifier to its supertype's, an is-a check
//!   that walks the registered chain, and casts — owned by the caller so
//!   every registry can be independent; the process-wide instance, if one is
//!   wanted, lives with the application root.
//! - [`interface::Node`] and its tree operations: insertion and removal
//!   that provably maintain `interface::tree_wf`, which ties the sibling
//!   links, the child delimiters and the parent pointers to each node's
//!   child sequence.

mod dom;
mod cast;

pub use crate::dom::Dom;
pub use crate::dom::DomStore;

pub use crate::cast::Cast;
pub use crate::cast::Hierarchy;
pub use crate::cast::{Interface, InterfaceID};
pub use crate::cast::is;
pub use crate::cast::{hier_wf, idx_of, is_ancestor, parent_in, registered, top_of};
pub use crate::cast::{lemma_cast_round_trip, lemma_idx_of, lemma_idx_of_push, lemma_idx_unique,
    lemma_parent_earlier};

pub mod interface;

pub use crate::interface::{lemma_append_detach_round_trip, lemma_sibling_chain};

use vstd::prelude::*;
use crate::interface::{Document, Element, Node};

verus! {

/// Register the crate's own interfaces with `h`: `Node` as a root, and
/// `Document` and `Element` as inheriting from `Node`. This must run to
/// completion before any is-a check or cast consults `h`; registering on a
/// registry that already carries one of these identifiers is a caller
/// error, ruled out up front.
pub fn init(h: &mut Hierarchy)
    requires
        old(h).wf(),
        !registered(old(h)@, Node::spec_id()),
        !registered(old(h)@, Document::spec_id()),
        !registered(old(h)@, Element::spec_id()),
    ensures
        final(h).wf(),
        final(h)@ == old(h)@.push((Node::spec_id(), None)).push(
            (Document::spec_id(), Some(Node::spec_id())),
        ).push((Element::spec_id(), Some(Node::spec_id()))),
{
    let ghost h0 = h@;
    h.register(Node::id(), None);
    proof {
        lemma_idx_of_push(h0, (Node::spec_id(), None), Node::spec_id());
        lemma_idx_of_push(h0, (Node::spec_id(), None), Document::spec_id());
        lemma_idx_of_push(h0, (Node::spec_id(), None), Element::spec_id());
    }
    let ghost h1 = h@;
    h.register(Document::id(), Some(Node::id()));
    proof {
        lemma_idx_of_push(h1, (Document::spec_id(), Some(Node::spec_id())), Node::spec_id());
        lemma_idx_of_push(h1, (Document::spec_id(), Some(Node::spec_id())), Element::spec_id());
    }
    h.register(Element::id(), Some(Node::id()));
}

} // verus!
