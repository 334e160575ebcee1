//! The document interface: a concrete root-of-tree interface inheriting
//! from `Node`, with a query for its document element.

use vstd::prelude::*;
use crate::cast::{is, is_ancestor, registered, top_of, Hierarchy, Interface};
use crate::dom::{Dom, DomStore};
use super::element::Element;
use super::node::{child_at_ok, detached, lemma_alloc_preserves_wf, tree_wf, wf_node, Node};

verus! {

/// The document interface. It inherits from `Node` and adds no fields of
/// its own: a document value is a node slot whose construction tag names
/// this interface.
pub struct Document {}

impl Interface for Document {
    open spec fn spec_id() -> u32 {
        2
    }

    fn id() -> u32 {
        2
    }
}

/// Whether the node in slot `i` was constructed as an element (that is, as
/// `Element` or as an interface inheriting from it).
pub open spec fn is_element_tag(s: Seq<Node>, h: Seq<(u32, Option<u32>)>, i: usize) -> bool {
    is_ancestor(h, top_of(s, i), Element::spec_id())
}

impl Document {
    /// Allocate a fresh, detached node constructed as a document, and hand
    /// back its owning handle.
    pub fn new(store: &mut DomStore<Node>) -> (d: Dom<Document>)
        requires
            old(store).wf(),
            tree_wf(old(store).values()),
        ensures
            final(store).wf(),
            tree_wf(final(store).values()),
            d.index() == old(store).len(),
            final(store).counts() == old(store).counts().push(1u64),
            final(store).values().len() == old(store).len() + 1,
            top_of(final(store).values(), d.index()) == Document::spec_id(),
            detached(final(store).values(), d.index()),
            final(store).values()[d.index() as int].children@.len() == 0,
            forall|j: usize|
                j < old(store).len() ==> final(store).values()[j as int] == old(store).values()[j as int],
    {
        let n = Node {
            top: Document::id(),
            parent: None,
            first_child: None,
            last_child: None,
            previous_sibling: None,
            next_sibling: None,
            children: Ghost(Seq::empty()),
        };
        proof {
            lemma_alloc_preserves_wf(store.values(), n);
        }
        let d: Dom<Node> = Dom::new(store, n);
        d.retag()
    }

    /// The document element: the first child of `doc` that was constructed
    /// as an element, if any. A well-formed document has at most one element
    /// child; this query does not police that assumption and simply returns
    /// the first.
    pub fn element(doc: &Dom<Document>, store: &DomStore<Node>, h: &Hierarchy) -> (r: Option<
        Dom<Element>,
    >)
        requires
            tree_wf(store.values()),
            doc.index() < store.len(),
            h.wf(),
            forall|kk: int|
                0 <= kk < store.values()[doc.index() as int].children@.len() ==> registered(
                    h@,
                    top_of(store.values(), store.values()[doc.index() as int].children@[kk]),
                ),
        ensures
            ({
                let s = store.values();
                let c = s[doc.index() as int].children@;
                match r {
                    Some(d) => exists|kk: int|
                        0 <= kk < c.len() && c[kk] == d.index() && is_element_tag(s, h@, c[kk])
                            && (forall|jj: int| 0 <= jj < kk ==> !is_element_tag(s, h@, c[jj])),
                    None => forall|kk: int| 0 <= kk < c.len() ==> !is_element_tag(s, h@, c[kk]),
                }
            }),
    {
        let di = doc.index();
        let ghost s = store.values();
        let ghost c = s[di as int].children@;
        proof {
            assert(wf_node(s, di));
        }
        let mut curr = store.at(di).first_child;
        let ghost mut kk: int = 0;
        loop
            invariant
                tree_wf(s),
                s == store.values(),
                h.wf(),
                di == doc.index() < s.len(),
                c == s[di as int].children@,
                0 <= kk <= c.len(),
                curr == (if kk == c.len() {
                    None::<usize>
                } else {
                    Some(c[kk])
                }),
                forall|jj: int| 0 <= jj < kk ==> !is_element_tag(s, h@, c[jj]),
                forall|jj: int| 0 <= jj < c.len() ==> registered(h@, top_of(s, c[jj])),
            decreases c.len() - kk,
        {
            match curr {
                None => {
                    return None;
                },
                Some(i) => {
                    proof {
                        assert(wf_node(s, di));
                        assert(child_at_ok(s, di, kk));
                    }
                    let nd = store.at(i);
                    if is(h, nd.top, Element::id()) {
                        return Some(Dom::from_index(i));
                    }
                    curr = nd.next_sibling;
                    proof {
                        kk = kk + 1;
                    }
                },
            }
        }
    }
}

} // verus!
