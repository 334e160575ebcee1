//! The interface hierarchy and casting between inherited interfaces.
//!
//! Every interface carries a process-unique positive identifier; zero is the
//! invalid sentinel. A `Hierarchy` maps each registered identifier to the
//! identifier of the interface it inherits from (or to none for a root).
//! A value records, in the leading tag of its node, the identifier of the
//! topmost interface it was constructed as; an is-a check walks that tag's
//! inheritance chain through the hierarchy, and a cast re-types the handle
//! after the walk confirms the claim. The hierarchy is an explicitly passed
//! context object owned by the application root, so every registry can be
//! independent; a process-wide instance, if wanted, lives with the caller.
//!
//! Registration must fully precede lookups: `register` demands that the
//! supertype is already present, which also bounds every chain walk by the
//! registration order.

use vstd::prelude::*;
use crate::dom::{Dom, DomStore};
use crate::interface::Node;

verus! {

/// Identifier of an interface: process-unique and positive; zero is invalid.
pub type InterfaceID = u32;

/// Keeps track of the interface hierarchy by mapping an interface ID to the
/// ID of the interface it inherits from, in registration order.
pub struct Hierarchy {
    entries: Vec<(u32, Option<u32>)>,
}

impl View for Hierarchy {
    type V = Seq<(u32, Option<u32>)>;

    closed spec fn view(&self) -> Seq<(u32, Option<u32>)> {
        self.entries@
    }
}

/// Index of the entry registering `id`, or -1 if none does.
pub open spec fn idx_of(h: Seq<(u32, Option<u32>)>, id: u32) -> int
    decreases h.len(),
{
    if h.len() == 0 {
        -1
    } else if h.last().0 == id {
        h.len() - 1
    } else {
        idx_of(h.drop_last(), id)
    }
}

/// Whether `id` has been registered.
pub open spec fn registered(h: Seq<(u32, Option<u32>)>, id: u32) -> bool {
    idx_of(h, id) >= 0
}

/// The supertype recorded for `id` (meaningful only when `id` is registered).
pub open spec fn parent_in(h: Seq<(u32, Option<u32>)>, id: u32) -> Option<u32> {
    h[idx_of(h, id)].1
}

/// A well-formed registry: identifiers are positive and pairwise distinct,
/// and every recorded supertype was registered strictly earlier.
pub open spec fn hier_wf(h: Seq<(u32, Option<u32>)>) -> bool {
    &&& forall|i: int, j: int| 0 <= i < j < h.len() ==> (#[trigger] h[i]).0 != (#[trigger] h[j]).0
    &&& forall|i: int| 0 <= i < h.len() ==> (#[trigger] h[i]).0 != 0
    &&& forall|i: int|
        0 <= i < h.len() && (#[trigger] h[i]).1 is Some ==> exists|j: int|
            0 <= j < i && (#[trigger] h[j]).0 == h[i].1.unwrap()
}

/// Basic facts about `idx_of`: it stays in range, it finds `id` when `id`
/// occurs, and nothing after it carries `id`.
pub proof fn lemma_idx_of(h: Seq<(u32, Option<u32>)>, id: u32)
    ensures
        -1 <= idx_of(h, id) < h.len(),
        idx_of(h, id) >= 0 ==> h[idx_of(h, id)].0 == id,
        forall|j: int| idx_of(h, id) < j < h.len() ==> (#[trigger] h[j]).0 != id,
    decreases h.len(),
{
    if h.len() > 0 && h.last().0 != id {
        lemma_idx_of(h.drop_last(), id);
        assert(forall|j: int|
            0 <= j < h.len() - 1 ==> (#[trigger] h[j]) == h.drop_last()[j]);
    }
}

/// In a well-formed registry, any entry carrying `id` is the one `idx_of`
/// finds.
pub proof fn lemma_idx_unique(h: Seq<(u32, Option<u32>)>, id: u32, j: int)
    requires
        hier_wf(h),
        0 <= j < h.len(),
        h[j].0 == id,
    ensures
        idx_of(h, id) == j,
{
    lemma_idx_of(h, id);
}

/// In a well-formed registry the supertype of a registered interface is
/// itself registered, strictly earlier.
pub proof fn lemma_parent_earlier(h: Seq<(u32, Option<u32>)>, id: u32)
    requires
        hier_wf(h),
        registered(h, id),
        parent_in(h, id) is Some,
    ensures
        registered(h, parent_in(h, id).unwrap()),
        idx_of(h, parent_in(h, id).unwrap()) < idx_of(h, id),
{
    lemma_idx_of(h, id);
    let i = idx_of(h, id);
    let p = h[i].1.unwrap();
    let j = choose|j: int| 0 <= j < i && (#[trigger] h[j]).0 == p;
    lemma_idx_unique(h, p, j);
}

/// Whether the interface registered as `top` is, or inherits (directly or
/// transitively) from, the interface `sought`.
pub open spec fn is_ancestor(h: Seq<(u32, Option<u32>)>, top: u32, sought: u32) -> bool
    decreases idx_of(h, top)
        when hier_wf(h) && registered(h, top)
        via lemma_is_ancestor_decreases
{
    if top == sought {
        true
    } else {
        match parent_in(h, top) {
            Some(p) => is_ancestor(h, p, sought),
            None => false,
        }
    }
}

#[via_fn]
proof fn lemma_is_ancestor_decreases(h: Seq<(u32, Option<u32>)>, top: u32, sought: u32) {
    if hier_wf(h) && registered(h, top) && top != sought && parent_in(h, top) is Some {
        lemma_parent_earlier(h, top);
    }
}

/// Registering a fresh entry leaves every earlier lookup unchanged.
pub proof fn lemma_idx_of_push(h: Seq<(u32, Option<u32>)>, e: (u32, Option<u32>), id: u32)
    ensures
        e.0 == id ==> idx_of(h.push(e), id) == h.len(),
        e.0 != id ==> idx_of(h.push(e), id) == idx_of(h, id),
{
    assert(h.push(e).drop_last() =~= h);
}

impl Hierarchy {
    /// A well-formed registry (see `hier_wf`); every operation preserves
    /// this, so it holds of any registry built through this interface.
    pub open spec fn wf(self) -> bool {
        hier_wf(self@)
    }

    /// An empty registry.
    pub fn new() -> (h: Hierarchy)
        ensures
            h@.len() == 0,
            h.wf(),
    {
        let entries: Vec<(u32, Option<u32>)> = Vec::new();
        Hierarchy { entries }
    }

    /// Record that `interface` inherits from `inherited` (or is a root).
    /// Double registration is a caller error, ruled out up front; so is a
    /// supertype that has not been registered yet.
    ///
    /// The supertype-first order is a deliberate strengthening: with every
    /// recorded supertype registered strictly earlier, each inheritance
    /// chain descends through earlier registrations, which is what makes
    /// the chain walk of `is` provably terminate (see `hier_wf`). No
    /// hierarchy is lost — only registration orders; registration runs once
    /// at startup, where a root-first order costs nothing.
    pub fn register(&mut self, interface: InterfaceID, inherited: Option<InterfaceID>)
        requires
            old(self).wf(),
            interface != 0,
            !registered(old(self)@, interface),
            inherited matches Some(p) ==> registered(old(self)@, p),
        ensures
            final(self)@ == old(self)@.push((interface, inherited)),
            final(self).wf(),
            registered(final(self)@, interface),
            parent_in(final(self)@, interface) == inherited,
            forall|x: u32| x != interface ==> idx_of(final(self)@, x) == idx_of(old(self)@, x),
            forall|x: u32|
                x != interface && registered(old(self)@, x) ==> parent_in(final(self)@, x)
                    == parent_in(old(self)@, x),
    {
        proof {
            let h0 = self@;
            let h1 = h0.push((interface, inherited));
            lemma_idx_of(h0, interface);
            if inherited is Some {
                lemma_idx_of(h0, inherited.unwrap());
            }
            lemma_idx_of_push(h0, (interface, inherited), interface);
            assert forall|x: u32| x != interface implies idx_of(h1, x) == idx_of(h0, x) by {
                lemma_idx_of_push(h0, (interface, inherited), x);
            }
            assert forall|x: u32| x != interface && registered(h0, x) implies parent_in(h1, x)
                == parent_in(h0, x) by {
                lemma_idx_of(h0, x);
                lemma_idx_of_push(h0, (interface, inherited), x);
            }
            assert forall|i: int, j: int| 0 <= i < j < h1.len() implies
                (#[trigger] h1[i]).0 != (#[trigger] h1[j]).0 by {
                if j == h1.len() - 1 {
                    assert(h0[i].0 != interface);
                }
            }
            assert forall|i: int|
                0 <= i < h1.len() && (#[trigger] h1[i]).1 is Some implies exists|j: int|
                    0 <= j < i && (#[trigger] h1[j]).0 == h1[i].1.unwrap() by {
                if i < h1.len() - 1 {
                    let j = choose|j: int| 0 <= j < i && (#[trigger] h0[j]).0 == h0[i].1.unwrap();
                    assert(0 <= j < i && h1[j].0 == h1[i].1.unwrap());
                } else if inherited is Some {
                    let j = idx_of(h0, inherited.unwrap());
                    assert(0 <= j < i && h1[j].0 == h1[i].1.unwrap());
                }
            }
        }
        self.entries.push((interface, inherited));
    }

    /// Whether `id` has been registered.
    pub fn is_registered(&self, id: InterfaceID) -> (r: bool)
        requires
            self.wf(),
        ensures
            r == registered(self@, id),
    {
        let n = self.entries.len();
        let mut k: usize = 0;
        while k < n
            invariant
                self.wf(),
                n == self@.len(),
                0 <= k <= n,
                forall|j: int| 0 <= j < k ==> (#[trigger] self@[j]).0 != id,
            decreases n - k,
        {
            if self.entries[k].0 == id {
                proof {
                    lemma_idx_unique(self@, id, k as int);
                }
                return true;
            }
            k += 1;
        }
        proof {
            lemma_idx_of(self@, id);
        }
        false
    }

    /// The identifier of the interface that `id` inherits from, or none for a
    /// root. Looking up an unregistered identifier is a caller error, ruled
    /// out up front.
    pub fn inherits_from(&self, id: InterfaceID) -> (r: Option<InterfaceID>)
        requires
            self.wf(),
            registered(self@, id),
        ensures
            r == parent_in(self@, id),
    {
        let n = self.entries.len();
        let mut k: usize = 0;
        while k < n
            invariant
                self.wf(),
                registered(self@, id),
                n == self@.len(),
                0 <= k <= n,
                forall|j: int| 0 <= j < k ==> (#[trigger] self@[j]).0 != id,
            decreases n - k,
        {
            if self.entries[k].0 == id {
                proof {
                    lemma_idx_unique(self@, id, k as int);
                }
                return self.entries[k].1;
            }
            k += 1;
        }
        // a registered identifier is always found before the scan runs out
        proof {
            lemma_idx_of(self@, id);
            assert(false);
        }
        None
    }

    /// Forget every registration; meant for tests that re-initialize.
    pub fn clear(&mut self)
        ensures
            final(self)@.len() == 0,
            final(self).wf(),
    {
        self.entries = Vec::new();
    }
}

/// Whether the interface whose ID is `top` is, or has as a supertype, the
/// interface whose ID is `sought`, by walking `top`'s inheritance chain.
pub fn is(h: &Hierarchy, top: InterfaceID, sought: InterfaceID) -> (r: bool)
    requires
        h.wf(),
        registered(h@, top),
    ensures
        r == is_ancestor(h@, top, sought),
{
    let mut curr = top;
    loop
        invariant
            h.wf(),
            registered(h@, curr),
            is_ancestor(h@, curr, sought) == is_ancestor(h@, top, sought),
        decreases idx_of(h@, curr),
    {
        if curr == sought {
            return true;
        }
        match h.inherits_from(curr) {
            Some(p) => {
                proof {
                    lemma_parent_earlier(h@, curr);
                }
                curr = p;
            },
            None => {
                return false;
            },
        }
    }
}

/// An interface of the object model: reports its own process-unique positive
/// identifier. Concrete interfaces embed their supertype's representation in
/// their node and record the topmost identifier in the node's leading tag.
pub trait Interface {
    /// The identifier, at the specification level.
    spec fn spec_id() -> u32;

    /// The identifier of this interface.
    fn id() -> (r: u32)
        ensures
            r == Self::spec_id(),
            r != 0,
    ;
}

/// The interface identifier recorded as the topmost construction tag of the
/// node in slot `i`.
pub open spec fn top_of(s: Seq<Node>, i: usize) -> u32 {
    s[i as int].top
}

impl<T: Interface> Dom<T> {
    /// Whether the pointed-to value was constructed as `U` or as an interface
    /// inheriting from `U`, judged by the recorded construction tag.
    pub fn is<U: Interface>(&self, store: &DomStore<Node>, h: &Hierarchy) -> (r: bool)
        requires
            self.index() < store.len(),
            h.wf(),
            registered(h@, top_of(store.values(), self.index())),
        ensures
            r == is_ancestor(h@, top_of(store.values(), self.index()), U::spec_id()),
    {
        let node = store.at(self.index());
        is(h, node.top, U::id())
    }

    /// Reinterpret this handle as a handle to `U` when the recorded
    /// construction tag confirms the claim; no data moves. A cast that the
    /// hierarchy walk does not confirm yields an absence result.
    pub fn cast<U: Interface>(&self, store: &DomStore<Node>, h: &Hierarchy) -> (r: Option<Dom<U>>)
        requires
            self.index() < store.len(),
            h.wf(),
            registered(h@, top_of(store.values(), self.index())),
        ensures
            match r {
                Some(d) => d.index() == self.index()
                    && is_ancestor(h@, top_of(store.values(), self.index()), U::spec_id()),
                None => !is_ancestor(h@, top_of(store.values(), self.index()), U::spec_id()),
            },
    {
        if self.is::<U>(store, h) {
            Some(self.retag::<U>())
        } else {
            None
        }
    }
}

/// The result type of casting an interface value of `T` to the interface `U`.
pub trait Cast<T: Interface, U: Interface> {
    /// The result of casting from `T` to `U`.
    type Res;

    /// The slot of the node store that the value to be cast names.
    spec fn slot(&self) -> usize;

    /// The slot that a cast result names.
    spec fn res_slot(r: &Self::Res) -> usize;

    /// Cast to `U`, or report absence: when the value was not constructed
    /// as a `U`, and also when the handle or its recorded tag is stale for
    /// this store and hierarchy — the checks that the contract-bearing form
    /// demands of its callers are made here and answered with `None`.
    fn cast(self, store: &DomStore<Node>, h: &Hierarchy) -> (r: Option<Self::Res>)
        requires
            h.wf(),
        ensures
            match r {
                Some(d) => Self::res_slot(&d) == self.slot() && self.slot() < store.len()
                    && registered(h@, top_of(store.values(), self.slot()))
                    && is_ancestor(h@, top_of(store.values(), self.slot()), U::spec_id()),
                None => !(self.slot() < store.len()
                    && registered(h@, top_of(store.values(), self.slot()))
                    && is_ancestor(h@, top_of(store.values(), self.slot()), U::spec_id())),
            },
    ;
}

impl<T: Interface, U: Interface> Cast<T, U> for Dom<T> {
    type Res = Dom<U>;

    open spec fn slot(&self) -> usize {
        self.spec_index()
    }

    open spec fn res_slot(r: &Dom<U>) -> usize {
        r.spec_index()
    }

    fn cast(self, store: &DomStore<Node>, h: &Hierarchy) -> Option<Dom<U>> {
        if self.index() < store.length() && h.is_registered(store.at(self.index()).top) {
            Dom::<T>::cast::<U>(&self, store, h)
        } else {
            None
        }
    }
}

/// Law: casting is an identity round trip on the construction tag. Take the
/// value in slot `i`, constructed as the interface its tag records, and let
/// it inherit (directly or transitively) from a registered interface `b` —
/// so the is-a check for `b` succeeds and `cast` to `b` yields a handle,
/// whose slot `j` the cast guarantees equals `i`. The cast moved no data
/// and left the tag unchanged, so on the result both the is-a check for `b`
/// and the is-a check for the originally constructed interface succeed.
pub proof fn lemma_cast_round_trip(
    s: Seq<Node>,
    h: Seq<(u32, Option<u32>)>,
    i: usize,
    j: usize,
    b: u32,
)
    requires
        hier_wf(h),
        i < s.len(),
        registered(h, top_of(s, i)),
        is_ancestor(h, top_of(s, i), b),
        j == i,
    ensures
        is_ancestor(h, top_of(s, j), b),
        is_ancestor(h, top_of(s, j), top_of(s, i)),
{
}

} // verus!
