//! The element interface: a concrete interface inheriting from `Node`.

use vstd::prelude::*;
use crate::cast::{top_of, Interface};
use crate::dom::{Dom, DomStore};
use super::node::{detached, lemma_alloc_preserves_wf, tree_wf, Node};

verus! {

/// The element interface. It inherits from `Node` and adds no fields of its
/// own: an element value is a node slot whose construction tag names this
/// interface.
pub struct Element {}

impl Interface for Element {
    open spec fn spec_id() -> u32 {
        3
    }

    fn id() -> u32 {
        3
    }
}

impl Element {
    /// Allocate a fresh, detached node constructed as an element, and hand
    /// back its owning handle.
    pub fn new(store: &mut DomStore<Node>) -> (d: Dom<Element>)
        requires
            old(store).wf(),
            tree_wf(old(store).values()),
        ensures
            final(store).wf(),
            tree_wf(final(store).values()),
            d.index() == old(store).len(),
            final(store).counts() == old(store).counts().push(1u64),
            final(store).values().len() == old(store).len() + 1,
            top_of(final(store).values(), d.index()) == Element::spec_id(),
            detached(final(store).values(), d.index()),
            final(store).values()[d.index() as int].children@.len() == 0,
            forall|j: usize|
                j < old(store).len() ==> final(store).values()[j as int] == old(store).values()[j as int],
    {
        let n = Node {
            top: Element::id(),
            parent: None,
            first_child: None,
            last_child: None,
            previous_sibling: None,
            next_sibling: None,
            children: Ghost(Seq::empty()),
        };
        proof {
            lemma_alloc_preserves_wf(store.values(), n);
        }
        let d: Dom<Node> = Dom::new(store, n);
        d.retag()
    }
}

} // verus!
