//! The tree component: nodes with parent/child/sibling linkage and the
//! insertion/removal operations that preserve the structural invariants.
//!
//! Nodes live in a `DomStore<Node>` and name each other by slot index. Each
//! node carries, besides its exec link fields, a ghost sequence of its
//! children in order; `tree_wf` ties the link fields to that sequence: the
//! first and last child delimit it, the sibling links chain through it in
//! order and in reverse, every member points back to its parent, and a node
//! has a parent exactly when it appears in that parent's child sequence.

use vstd::prelude::*;
use crate::cast::{Interface, InterfaceID};
use crate::dom::{Dom, DomStore};

verus! {

/// A node of the tree: the root interface that every other interface embeds.
/// The leading `top` tag records the identifier of the topmost interface the
/// node was constructed as. The ghost `children` sequence lists the slot
/// indices of this node's children in sibling order.
#[derive(Clone, Copy)]
pub struct Node {
    /// Identifier of the topmost interface of the construction chain.
    pub top: InterfaceID,
    /// Slot of the parent, if this node is in a tree.
    pub parent: Option<usize>,
    /// Slot of the first child, if any.
    pub first_child: Option<usize>,
    /// Slot of the last child, if any.
    pub last_child: Option<usize>,
    /// Slot of the previous sibling, if any.
    pub previous_sibling: Option<usize>,
    /// Slot of the next sibling, if any.
    pub next_sibling: Option<usize>,
    /// The children of this node, in sibling order.
    pub children: Ghost<Seq<usize>>,
}

impl Interface for Node {
    open spec fn spec_id() -> u32 {
        1
    }

    fn id() -> u32 {
        1
    }
}

/// The child at position `k` of node `p` is linked consistently: it lives in
/// the store, points back to `p`, and its sibling links name its neighbours
/// in `p`'s child sequence.
pub open spec fn child_at_ok(s: Seq<Node>, p: usize, k: int) -> bool {
    let c = s[p as int].children@;
    let i = c[k];
    &&& i < s.len()
    &&& s[i as int].parent == Some(p)
    &&& s[i as int].previous_sibling == (if k == 0 {
        None::<usize>
    } else {
        Some(c[k - 1])
    })
    &&& s[i as int].next_sibling == (if k == c.len() - 1 {
        None::<usize>
    } else {
        Some(c[k + 1])
    })
}

/// Node `p`'s linkage is consistent with its child sequence, and its own
/// position in the tree is sound: detached nodes have no siblings, attached
/// nodes appear among their parent's children, and no node is its own
/// parent.
pub open spec fn wf_node(s: Seq<Node>, p: usize) -> bool {
    let n = s[p as int];
    let c = n.children@;
    &&& n.first_child == (if c.len() == 0 {
        None::<usize>
    } else {
        Some(c[0])
    })
    &&& n.last_child == (if c.len() == 0 {
        None::<usize>
    } else {
        Some(c[c.len() - 1])
    })
    &&& forall|k: int| 0 <= k < c.len() ==> #[trigger] child_at_ok(s, p, k)
    &&& forall|k1: int, k2: int| 0 <= k1 < k2 < c.len() ==> c[k1] != c[k2]
    &&& (n.parent is None ==> n.previous_sibling is None && n.next_sibling is None)
    &&& (n.parent matches Some(q) ==> q < s.len() && q != p && s[q as int].children@.contains(p))
}

/// The whole store satisfies the tree invariants.
pub open spec fn tree_wf(s: Seq<Node>) -> bool {
    forall|p: usize| p < s.len() ==> #[trigger] wf_node(s, p)
}

/// A node is detached when it has no parent (the invariants then also rule
/// out siblings).
pub open spec fn detached(s: Seq<Node>, i: usize) -> bool {
    s[i as int].parent is None
}

/// The position of node `i` in its parent's child sequence.
pub open spec fn child_pos(s: Seq<Node>, i: usize) -> int {
    let p = s[i as int].parent.unwrap();
    s[p as int].children@.index_of(i)
}

/// How a store changes when node `n` becomes the child of `p` at position
/// `k`: `p`'s child sequence gains `n` at `k`, the two neighbouring siblings
/// (where present) re-aim their links at `n`, `n` itself points at its new
/// parent and neighbours, and every other slot is untouched.
pub open spec fn inserted_at(s0: Seq<Node>, s1: Seq<Node>, p: usize, n: usize, k: int) -> bool {
    let c0 = s0[p as int].children@;
    let c1 = c0.insert(k, n);
    &&& s1.len() == s0.len()
    &&& s1[n as int] == (Node {
        parent: Some(p),
        previous_sibling: if k == 0 {
            None
        } else {
            Some(c0[k - 1])
        },
        next_sibling: if k == c0.len() {
            None
        } else {
            Some(c0[k])
        },
        ..s0[n as int]
    })
    &&& s1[p as int] == (Node {
        first_child: Some(c1[0]),
        last_child: Some(c1[c1.len() - 1]),
        children: Ghost(c1),
        ..s0[p as int]
    })
    &&& (k > 0 ==> s1[c0[k - 1] as int] == (Node {
        next_sibling: Some(n),
        ..s0[c0[k - 1] as int]
    }))
    &&& (k < c0.len() ==> s1[c0[k] as int] == (Node {
        previous_sibling: Some(n),
        ..s0[c0[k] as int]
    }))
    &&& forall|j: usize|
        j < s0.len() && j != p && j != n && (k > 0 ==> j != c0[k - 1]) && (k < c0.len() ==> j
            != c0[k]) ==> (#[trigger] s1[j as int]) == s0[j as int]
}

/// How a store changes when node `n` leaves its parent `p`: `n` disappears
/// from `p`'s child sequence, its former neighbours (where present) link to
/// each other, `n`'s own position links are cleared, and every other slot is
/// untouched.
pub open spec fn unlinked_at(s0: Seq<Node>, s1: Seq<Node>, n: usize) -> bool {
    let p = s0[n as int].parent.unwrap();
    let c0 = s0[p as int].children@;
    let k = c0.index_of(n);
    &&& s1.len() == s0.len()
    &&& 0 <= k < c0.len() && c0[k] == n
    &&& s1[n as int] == (Node {
        parent: None,
        previous_sibling: None,
        next_sibling: None,
        ..s0[n as int]
    })
    &&& s1[p as int] == (Node {
        first_child: if c0.len() == 1 {
            None
        } else if k == 0 {
            Some(c0[1])
        } else {
            Some(c0[0])
        },
        last_child: if c0.len() == 1 {
            None
        } else if k == c0.len() - 1 {
            Some(c0[c0.len() - 2])
        } else {
            Some(c0[c0.len() - 1])
        },
        children: Ghost(c0.remove(k)),
        ..s0[p as int]
    })
    &&& (k > 0 ==> s1[c0[k - 1] as int] == (Node {
        next_sibling: s0[n as int].next_sibling,
        ..s0[c0[k - 1] as int]
    }))
    &&& (k < c0.len() - 1 ==> s1[c0[k + 1] as int] == (Node {
        previous_sibling: s0[n as int].previous_sibling,
        ..s0[c0[k + 1] as int]
    }))
    &&& forall|j: usize|
        j < s0.len() && j != p && j != n && (k > 0 ==> j != c0[k - 1]) && (k < c0.len() - 1 ==> j
            != c0[k + 1]) ==> (#[trigger] s1[j as int]) == s0[j as int]
}

/// In a well-formed store, a detached node occurs in no child sequence.
pub proof fn lemma_detached_not_child(s: Seq<Node>, n: usize)
    requires
        tree_wf(s),
        n < s.len(),
        s[n as int].parent is None,
    ensures
        forall|q: usize, kk: int|
            q < s.len() && 0 <= kk < s[q as int].children@.len() ==> (
            #[trigger] s[q as int].children@[kk]) != n,
{
    assert forall|q: usize, kk: int|
        q < s.len() && 0 <= kk < s[q as int].children@.len() implies (
    #[trigger] s[q as int].children@[kk]) != n by {
        assert(wf_node(s, q));
        assert(child_at_ok(s, q, kk));
    }
}

/// Allocating a fresh, detached node at the end of the store preserves the
/// tree invariants.
pub proof fn lemma_alloc_preserves_wf(s: Seq<Node>, n: Node)
    requires
        tree_wf(s),
        n.parent is None,
        n.previous_sibling is None,
        n.next_sibling is None,
        n.first_child is None,
        n.last_child is None,
        n.children@.len() == 0,
    ensures
        tree_wf(s.push(n)),
{
    let s1 = s.push(n);
    assert forall|q: usize| q < s1.len() implies wf_node(s1, q) by {
        if q < s.len() {
            assert(wf_node(s, q));
            let cq = s[q as int].children@;
            assert(s1[q as int] == s[q as int]);
            assert forall|kk: int| 0 <= kk < cq.len() implies child_at_ok(s1, q, kk) by {
                assert(child_at_ok(s, q, kk));
                assert(s1[cq[kk] as int] == s[cq[kk] as int]);
            }
            if let Some(qq) = s[q as int].parent {
                assert(s1[qq as int].children@ == s[qq as int].children@);
            }
        }
    }
}

/// Inserting a value into a sequence keeps every value the sequence held.
proof fn lemma_insert_contains(c: Seq<usize>, k: int, x: usize, y: usize)
    requires
        0 <= k <= c.len(),
        c.contains(y),
    ensures
        c.insert(k, x).contains(y),
{
    c.insert_ensures(k, x);
    let w = choose|w: int| 0 <= w < c.len() && c[w] == y;
    if w < k {
        assert(c.insert(k, x)[w] == y);
    } else {
        assert(c.insert(k, x)[w + 1] == y);
    }
}

/// Removing one position keeps every other value the sequence held.
proof fn lemma_remove_contains(c: Seq<usize>, k: int, y: usize)
    requires
        0 <= k < c.len(),
        c.contains(y),
        c[k] != y,
    ensures
        c.remove(k).contains(y),
{
    c.remove_ensures(k);
    let w = choose|w: int| 0 <= w < c.len() && c[w] == y;
    if w < k {
        assert(c.remove(k)[w] == y);
    } else {
        assert(c.remove(k)[w - 1] == y);
    }
}

/// Linking a detached node `n` in as child `k` of `p` preserves the tree
/// invariants.
proof fn lemma_insert_preserves_wf(s0: Seq<Node>, s1: Seq<Node>, p: usize, n: usize, k: int)
    requires
        tree_wf(s0),
        p < s0.len(),
        n < s0.len(),
        n != p,
        s0[n as int].parent is None,
        0 <= k <= s0[p as int].children@.len(),
        inserted_at(s0, s1, p, n, k),
    ensures
        tree_wf(s1),
{
    let c0 = s0[p as int].children@;
    let c1 = c0.insert(k, n);
    c0.insert_ensures(k, n);
    lemma_detached_not_child(s0, n);
    assert(wf_node(s0, p));
    assert(wf_node(s0, n));
    // the touched neighbour slots are children of p, hence distinct from p and n
    if k > 0 {
        assert(child_at_ok(s0, p, k - 1));
        assert(wf_node(s0, c0[k - 1]));
    }
    if k < c0.len() {
        assert(child_at_ok(s0, p, k));
        assert(wf_node(s0, c0[k]));
    }
    // child sequences elsewhere are untouched
    assert forall|j: usize| j < s0.len() && j != p implies (#[trigger] s1[j as int]).children@
        == s0[j as int].children@ by {}
    assert forall|q: usize| q < s1.len() implies wf_node(s1, q) by {
        assert(wf_node(s0, q));
        if q == p {
            assert forall|kk: int| 0 <= kk < c1.len() implies child_at_ok(s1, p, kk) by {
                if kk < k {
                    assert(child_at_ok(s0, p, kk));
                    let i = c0[kk];
                    assert(wf_node(s0, i));
                    assert(c1[kk] == c0[kk]);
                    if kk > 0 {
                        assert(c1[kk - 1] == c0[kk - 1]);
                    }
                    if kk == k - 1 {
                        assert(c1[kk + 1] == n);
                        assert(s1[i as int].next_sibling == Some(n));
                        assert(s1[i as int].parent == s0[i as int].parent);
                        assert(s1[i as int].previous_sibling == s0[i as int].previous_sibling);
                    } else {
                        assert(c0[kk] != c0[k - 1]);
                        if k < c0.len() {
                            assert(c0[kk] != c0[k]);
                        }
                        assert(s1[i as int] == s0[i as int]);
                        assert(c1[kk + 1] == c0[kk + 1]);
                    }
                } else if kk == k {
                    if k > 0 {
                        assert(c1[k - 1] == c0[k - 1]);
                    }
                    if k < c0.len() {
                        assert(c1[k + 1] == c0[k]);
                    }
                } else {
                    assert(child_at_ok(s0, p, kk - 1));
                    let i = c0[kk - 1];
                    assert(wf_node(s0, i));
                    assert(c1[kk] == c0[kk - 1]);
                    if kk < c1.len() - 1 {
                        assert(c1[kk + 1] == c0[kk]);
                    }
                    if kk == k + 1 {
                        assert(c1[kk - 1] == n);
                        assert(s1[i as int].previous_sibling == Some(n));
                        assert(s1[i as int].parent == s0[i as int].parent);
                        assert(s1[i as int].next_sibling == s0[i as int].next_sibling);
                    } else {
                        if k > 0 {
                            assert(c0[kk - 1] != c0[k - 1]);
                        }
                        if k < c0.len() {
                            assert(c0[kk - 1] != c0[k]);
                        }
                        assert(s1[i as int] == s0[i as int]);
                        assert(c1[kk - 1] == c0[kk - 2]);
                    }
                }
            }
            assert forall|k1: int, k2: int| 0 <= k1 < k2 < c1.len() implies c1[k1] != c1[k2] by {
                if k1 == k {
                    assert(c1[k2] == c0[k2 - 1]);
                    assert(c0[k2 - 1] != n);
                } else if k2 == k {
                    assert(c1[k1] == c0[k1]);
                    assert(c0[k1] != n);
                } else {
                    let o1 = if k1 < k {
                        k1
                    } else {
                        k1 - 1
                    };
                    let o2 = if k2 < k {
                        k2
                    } else {
                        k2 - 1
                    };
                    assert(c1[k1] == c0[o1]);
                    assert(c1[k2] == c0[o2]);
                    assert(c0[o1] != c0[o2]);
                }
            }
            if let Some(qq) = s0[p as int].parent {
                assert(s1[qq as int].children@ == s0[qq as int].children@);
            }
            assert(wf_node(s1, p));
        } else if q == n {
            let cn = s0[n as int].children@;
            assert forall|kk: int| 0 <= kk < cn.len() implies child_at_ok(s1, n, kk) by {
                assert(child_at_ok(s0, n, kk));
                let m = cn[kk];
                assert(wf_node(s0, m));
                if m != p {
                    assert(s1[m as int] == s0[m as int]);
                }
            }
            assert(c1[k] == n);
            assert(s1[p as int].children@.contains(n));
            assert(wf_node(s1, n));
        } else {
            let cq = s0[q as int].children@;
            assert forall|kk: int| 0 <= kk < cq.len() implies child_at_ok(s1, q, kk) by {
                assert(child_at_ok(s0, q, kk));
                let m = cq[kk];
                assert(wf_node(s0, m));
                if m != p {
                    assert(s1[m as int] == s0[m as int]);
                }
            }
            if let Some(qq) = s0[q as int].parent {
                if qq == p {
                    lemma_insert_contains(c0, k, n, q);
                } else {
                    assert(s1[qq as int].children@ == s0[qq as int].children@);
                }
            }
            assert(wf_node(s1, q));
        }
    }
}

/// Unlinking node `n` from its parent preserves the tree invariants.
proof fn lemma_unlink_preserves_wf(s0: Seq<Node>, s1: Seq<Node>, n: usize)
    requires
        tree_wf(s0),
        n < s0.len(),
        s0[n as int].parent is Some,
        unlinked_at(s0, s1, n),
    ensures
        tree_wf(s1),
{
    let p = s0[n as int].parent.unwrap();
    let c0 = s0[p as int].children@;
    let k = c0.index_of(n);
    let c1 = c0.remove(k);
    c0.remove_ensures(k);
    assert(wf_node(s0, n));
    assert(wf_node(s0, p));
    assert(child_at_ok(s0, p, k));
    if k > 0 {
        assert(child_at_ok(s0, p, k - 1));
        assert(wf_node(s0, c0[k - 1]));
    }
    if k < c0.len() - 1 {
        assert(child_at_ok(s0, p, k + 1));
        assert(wf_node(s0, c0[k + 1]));
    }
    // child sequences elsewhere are untouched
    assert forall|j: usize| j < s0.len() && j != p implies (#[trigger] s1[j as int]).children@
        == s0[j as int].children@ by {}
    assert forall|q: usize| q < s1.len() implies wf_node(s1, q) by {
        assert(wf_node(s0, q));
        if q == p {
            assert forall|kk: int| 0 <= kk < c1.len() implies child_at_ok(s1, p, kk) by {
                if kk < k {
                    assert(child_at_ok(s0, p, kk));
                    let i = c0[kk];
                    assert(wf_node(s0, i));
                    assert(c1[kk] == c0[kk]);
                    if kk > 0 {
                        assert(c1[kk - 1] == c0[kk - 1]);
                    }
                    if kk == k - 1 {
                        assert(s1[i as int].next_sibling == s0[n as int].next_sibling);
                        assert(s1[i as int].parent == s0[i as int].parent);
                        assert(s1[i as int].previous_sibling == s0[i as int].previous_sibling);
                        if kk < c1.len() - 1 {
                            assert(c1[kk + 1] == c0[kk + 2]);
                        }
                    } else {
                        assert(c0[kk] != c0[k - 1]);
                        assert(c0[kk] != c0[k]);
                        if k < c0.len() - 1 {
                            assert(c0[kk] != c0[k + 1]);
                        }
                        assert(s1[i as int] == s0[i as int]);
                        assert(c1[kk + 1] == c0[kk + 1]);
                    }
                } else {
                    assert(child_at_ok(s0, p, kk + 1));
                    let i = c0[kk + 1];
                    assert(wf_node(s0, i));
                    assert(c1[kk] == c0[kk + 1]);
                    if kk < c1.len() - 1 {
                        assert(c1[kk + 1] == c0[kk + 2]);
                    }
                    if kk == k {
                        assert(s1[i as int].previous_sibling == s0[n as int].previous_sibling);
                        assert(s1[i as int].parent == s0[i as int].parent);
                        assert(s1[i as int].next_sibling == s0[i as int].next_sibling);
                        if kk > 0 {
                            assert(c1[kk - 1] == c0[kk - 1]);
                        }
                    } else {
                        assert(c0[kk + 1] != c0[k]);
                        if k > 0 {
                            assert(c0[kk + 1] != c0[k - 1]);
                        }
                        assert(c0[kk + 1] != c0[k + 1]);
                        assert(s1[i as int] == s0[i as int]);
                        assert(c1[kk - 1] == c0[kk]);
                    }
                }
            }
            assert forall|k1: int, k2: int| 0 <= k1 < k2 < c1.len() implies c1[k1] != c1[k2] by {
                let o1 = if k1 < k {
                    k1
                } else {
                    k1 + 1
                };
                let o2 = if k2 < k {
                    k2
                } else {
                    k2 + 1
                };
                assert(c1[k1] == c0[o1]);
                assert(c1[k2] == c0[o2]);
                assert(c0[o1] != c0[o2]);
            }
            if let Some(qq) = s0[p as int].parent {
                assert(s1[qq as int].children@ == s0[qq as int].children@);
            }
            assert(wf_node(s1, p));
        } else if q == n {
            let cn = s0[n as int].children@;
            assert forall|kk: int| 0 <= kk < cn.len() implies child_at_ok(s1, n, kk) by {
                assert(child_at_ok(s0, n, kk));
                let m = cn[kk];
                assert(wf_node(s0, m));
                if m != p {
                    assert(s1[m as int] == s0[m as int]);
                }
            }
            assert(wf_node(s1, n));
        } else {
            let cq = s0[q as int].children@;
            assert forall|kk: int| 0 <= kk < cq.len() implies child_at_ok(s1, q, kk) by {
                assert(child_at_ok(s0, q, kk));
                let m = cq[kk];
                assert(wf_node(s0, m));
                if m != p {
                    assert(s1[m as int] == s0[m as int]);
                }
            }
            if let Some(qq) = s0[q as int].parent {
                if qq == p {
                    lemma_remove_contains(c0, k, q);
                } else {
                    assert(s1[qq as int].children@ == s0[qq as int].children@);
                }
            }
            assert(wf_node(s1, q));
        }
    }
}

/// The slot reached from `from` after `steps` steps along `next_sibling`.
pub open spec fn walk_next(s: Seq<Node>, from: Option<usize>, steps: nat) -> Option<usize>
    decreases steps,
{
    if steps == 0 {
        from
    } else {
        match from {
            Some(i) => if i < s.len() {
                walk_next(s, s[i as int].next_sibling, (steps - 1) as nat)
            } else {
                None
            },
            None => None,
        }
    }
}

/// The slot reached from `from` after `steps` steps along
/// `previous_sibling`.
pub open spec fn walk_prev(s: Seq<Node>, from: Option<usize>, steps: nat) -> Option<usize>
    decreases steps,
{
    if steps == 0 {
        from
    } else {
        match from {
            Some(i) => if i < s.len() {
                walk_prev(s, s[i as int].previous_sibling, (steps - 1) as nat)
            } else {
                None
            },
            None => None,
        }
    }
}

/// Walking forward from the child at position `j` of `p` for `steps` steps
/// lands on the child at position `j + steps`.
pub proof fn lemma_walk_next_from(s: Seq<Node>, p: usize, j: int, steps: nat)
    requires
        tree_wf(s),
        p < s.len(),
        0 <= j,
        j + steps < s[p as int].children@.len(),
    ensures
        walk_next(s, Some(s[p as int].children@[j]), steps) == Some(
            s[p as int].children@[j + steps],
        ),
    decreases steps,
{
    assert(wf_node(s, p));
    assert(child_at_ok(s, p, j));
    if steps > 0 {
        lemma_walk_next_from(s, p, j + 1, (steps - 1) as nat);
    }
}

/// Walking backward from the child at position `j` of `p` for `steps` steps
/// lands on the child at position `j - steps`.
pub proof fn lemma_walk_prev_from(s: Seq<Node>, p: usize, j: int, steps: nat)
    requires
        tree_wf(s),
        p < s.len(),
        0 <= j - steps,
        j < s[p as int].children@.len(),
    ensures
        walk_prev(s, Some(s[p as int].children@[j]), steps) == Some(
            s[p as int].children@[j - steps],
        ),
    decreases steps,
{
    assert(wf_node(s, p));
    assert(child_at_ok(s, p, j));
    if steps > 0 {
        lemma_walk_prev_from(s, p, j - 1, (steps - 1) as nat);
    }
}

/// Law: in a well-formed store, walking `next_sibling` from `first_child`
/// reaches `last_child` in exactly child-count − 1 steps, visiting the
/// children in order, and the reverse walk via `previous_sibling` matches,
/// visiting them in reverse order.
pub proof fn lemma_sibling_chain(s: Seq<Node>, p: usize)
    requires
        tree_wf(s),
        p < s.len(),
        s[p as int].children@.len() > 0,
    ensures
        walk_next(s, s[p as int].first_child, (s[p as int].children@.len() - 1) as nat) == s[
            p as int
        ].last_child,
        walk_prev(s, s[p as int].last_child, (s[p as int].children@.len() - 1) as nat) == s[
            p as int
        ].first_child,
        forall|k: int|
            0 <= k < s[p as int].children@.len() ==> #[trigger] walk_next(
                s,
                s[p as int].first_child,
                k as nat,
            ) == Some(s[p as int].children@[k]),
        forall|k: int|
            0 <= k < s[p as int].children@.len() ==> #[trigger] walk_prev(
                s,
                s[p as int].last_child,
                k as nat,
            ) == Some(s[p as int].children@[s[p as int].children@.len() - 1 - k]),
{
    let c = s[p as int].children@;
    assert(wf_node(s, p));
    assert forall|k: int| 0 <= k < c.len() implies #[trigger] walk_next(
        s,
        s[p as int].first_child,
        k as nat,
    ) == Some(c[k]) by {
        lemma_walk_next_from(s, p, 0, k as nat);
    }
    assert forall|k: int| 0 <= k < c.len() implies #[trigger] walk_prev(
        s,
        s[p as int].last_child,
        k as nat,
    ) == Some(c[c.len() - 1 - k]) by {
        lemma_walk_prev_from(s, p, c.len() - 1, k as nat);
    }
    lemma_walk_next_from(s, p, 0, (c.len() - 1) as nat);
    lemma_walk_prev_from(s, p, c.len() - 1, (c.len() - 1) as nat);
}

/// Law: appending a node to a parent and then detaching it restores the
/// whole store — in particular the parent's child list — to its state
/// before the append.
pub proof fn lemma_append_detach_round_trip(
    s0: Seq<Node>,
    s1: Seq<Node>,
    s2: Seq<Node>,
    p: usize,
    n: usize,
)
    requires
        tree_wf(s0),
        p < s0.len(),
        n < s0.len(),
        n != p,
        detached(s0, n),
        inserted_at(s0, s1, p, n, s0[p as int].children@.len() as int),
        unlinked_at(s1, s2, n),
    ensures
        s2.len() == s0.len(),
        forall|j: usize| j < s0.len() ==> (#[trigger] s2[j as int]) == s0[j as int],
        s2[p as int].children@ == s0[p as int].children@,
{
    let c0 = s0[p as int].children@;
    let ka = c0.len() as int;
    let c1 = c0.insert(ka, n);
    c0.insert_ensures(ka, n);
    lemma_detached_not_child(s0, n);
    assert(wf_node(s0, p));
    assert(wf_node(s0, n));
    assert(s1[p as int].children@ == c1);
    assert(s1[n as int].parent == Some(p));
    // the only occurrence of n in c1 is the appended last position
    let k = c1.index_of(n);
    assert(c1[ka] == n);
    assert(c1.contains(n));
    assert(0 <= k < c1.len() && c1[k] == n);
    assert(k == ka) by {
        if k < ka {
            assert(c1[k] == c0[k]);
        }
    }
    c1.remove_ensures(k);
    assert(c1.remove(k) =~= c0);
    if c0.len() > 0 {
        assert(child_at_ok(s0, p, ka - 1));
        assert(wf_node(s0, c0[ka - 1]));
    }
    assert(s2[p as int].children@ == c1.remove(k));
    assert(s2[p as int].children@ == s0[p as int].children@);
    assert forall|j: usize| j < s0.len() implies (#[trigger] s2[j as int]) == s0[j as int] by {
        if j == n {
        } else if j == p {
        } else if c0.len() > 0 && j == c0[ka - 1] {
            assert(child_at_ok(s0, p, ka - 1));
        } else {
            assert(s1[j as int] == s0[j as int]);
            assert(s2[j as int] == s1[j as int]);
        }
    }
}

impl Node {
    /// A fresh, detached node, constructed as a bare `Node`.
    pub fn new() -> (n: Node)
        ensures
            n.top == Node::spec_id(),
            n.parent is None,
            n.first_child is None,
            n.last_child is None,
            n.previous_sibling is None,
            n.next_sibling is None,
            n.children@ == Seq::<usize>::empty(),
    {
        Node {
            top: Node::id(),
            parent: None,
            first_child: None,
            last_child: None,
            previous_sibling: None,
            next_sibling: None,
            children: Ghost(Seq::empty()),
        }
    }

    /// A handle to this node's parent, if it has one.
    pub fn parent(&self) -> (r: Option<Dom<Node>>)
        ensures
            r is None <==> self.parent is None,
            r matches Some(d) ==> self.parent == Some(d.index()),
    {
        match self.parent {
            Some(i) => Some(Dom::from_index(i)),
            None => None,
        }
    }

    /// A handle to this node's first child, if it has one.
    pub fn first_child(&self) -> (r: Option<Dom<Node>>)
        ensures
            r is None <==> self.first_child is None,
            r matches Some(d) ==> self.first_child == Some(d.index()),
    {
        match self.first_child {
            Some(i) => Some(Dom::from_index(i)),
            None => None,
        }
    }

    /// A handle to this node's last child, if it has one.
    pub fn last_child(&self) -> (r: Option<Dom<Node>>)
        ensures
            r is None <==> self.last_child is None,
            r matches Some(d) ==> self.last_child == Some(d.index()),
    {
        match self.last_child {
            Some(i) => Some(Dom::from_index(i)),
            None => None,
        }
    }

    /// A handle to this node's previous sibling, if it has one.
    pub fn previous_sibling(&self) -> (r: Option<Dom<Node>>)
        ensures
            r is None <==> self.previous_sibling is None,
            r matches Some(d) ==> self.previous_sibling == Some(d.index()),
    {
        match self.previous_sibling {
            Some(i) => Some(Dom::from_index(i)),
            None => None,
        }
    }

    /// A handle to this node's next sibling, if it has one.
    pub fn next_sibling(&self) -> (r: Option<Dom<Node>>)
        ensures
            r is None <==> self.next_sibling is None,
            r matches Some(d) ==> self.next_sibling == Some(d.index()),
    {
        match self.next_sibling {
            Some(i) => Some(Dom::from_index(i)),
            None => None,
        }
    }

    /// Append `node` as the last child of `parent`. The incoming node must
    /// be detached and distinct from the insertion point.
    pub fn append(store: &mut DomStore<Node>, parent: &Dom<Node>, node: Dom<Node>)
        requires
            tree_wf(old(store).values()),
            parent.index() < old(store).len(),
            node.index() < old(store).len(),
            node.index() != parent.index(),
            detached(old(store).values(), node.index()),
        ensures
            tree_wf(final(store).values()),
            final(store).counts() == old(store).counts(),
            inserted_at(
                old(store).values(),
                final(store).values(),
                parent.index(),
                node.index(),
                old(store).values()[parent.index() as int].children@.len() as int,
            ),
    {
        let pi = parent.index();
        let ni = node.index();
        let ghost s0 = store.values();
        let ghost c0 = s0[pi as int].children@;
        proof {
            assert(wf_node(s0, pi));
            assert(wf_node(s0, ni));
            if c0.len() > 0 {
                assert(child_at_ok(s0, pi, c0.len() - 1));
                assert(wf_node(s0, c0[c0.len() - 1]));
            }
        }
        let old_last = store.at(pi).last_child;
        {
            let nref = store.at_mut(ni);
            nref.previous_sibling = old_last;
            nref.next_sibling = None;
            nref.parent = Some(pi);
        }
        match old_last {
            Some(l) => {
                let lref = store.at_mut(l);
                lref.next_sibling = Some(ni);
            },
            None => {
                let pref = store.at_mut(pi);
                pref.first_child = Some(ni);
            },
        }
        let pref = store.at_mut(pi);
        pref.last_child = Some(ni);
        pref.children = Ghost(c0.push(ni));
        proof {
            let s1 = store.values();
            let k = c0.len() as int;
            assert(c0.push(ni) =~= c0.insert(k, ni));
            c0.insert_ensures(k, ni);
            assert(inserted_at(s0, s1, pi, ni, k));
            lemma_insert_preserves_wf(s0, s1, pi, ni, k);
        }
    }

    /// Prepend `node` as the first child of `parent`. The incoming node must
    /// be detached and distinct from the insertion point.
    pub fn prepend(store: &mut DomStore<Node>, parent: &Dom<Node>, node: Dom<Node>)
        requires
            tree_wf(old(store).values()),
            parent.index() < old(store).len(),
            node.index() < old(store).len(),
            node.index() != parent.index(),
            detached(old(store).values(), node.index()),
        ensures
            tree_wf(final(store).values()),
            final(store).counts() == old(store).counts(),
            inserted_at(old(store).values(), final(store).values(), parent.index(), node.index(), 0),
    {
        let pi = parent.index();
        let ni = node.index();
        let ghost s0 = store.values();
        let ghost c0 = s0[pi as int].children@;
        proof {
            assert(wf_node(s0, pi));
            assert(wf_node(s0, ni));
            if c0.len() > 0 {
                assert(child_at_ok(s0, pi, 0));
                assert(wf_node(s0, c0[0]));
            }
        }
        let old_first = store.at(pi).first_child;
        {
            let nref = store.at_mut(ni);
            nref.previous_sibling = None;
            nref.next_sibling = old_first;
            nref.parent = Some(pi);
        }
        match old_first {
            Some(f) => {
                let fref = store.at_mut(f);
                fref.previous_sibling = Some(ni);
            },
            None => {
                let pref = store.at_mut(pi);
                pref.last_child = Some(ni);
            },
        }
        let pref = store.at_mut(pi);
        pref.first_child = Some(ni);
        pref.children = Ghost(c0.insert(0, ni));
        proof {
            let s1 = store.values();
            c0.insert_ensures(0, ni);
            assert(inserted_at(s0, s1, pi, ni, 0));
            lemma_insert_preserves_wf(s0, s1, pi, ni, 0);
        }
    }

    /// Insert `node` immediately before `reference`, which must be in a
    /// tree; the incoming node must be detached and distinct from the
    /// reference and from its parent.
    pub fn insert_before(store: &mut DomStore<Node>, reference: &Dom<Node>, node: Dom<Node>)
        requires
            tree_wf(old(store).values()),
            reference.index() < old(store).len(),
            node.index() < old(store).len(),
            node.index() != reference.index(),
            !detached(old(store).values(), reference.index()),
            detached(old(store).values(), node.index()),
            Some(node.index()) != old(store).values()[reference.index() as int].parent,
        ensures
            tree_wf(final(store).values()),
            final(store).counts() == old(store).counts(),
            inserted_at(
                old(store).values(),
                final(store).values(),
                old(store).values()[reference.index() as int].parent.unwrap(),
                node.index(),
                child_pos(old(store).values(), reference.index()),
            ),
    {
        let ri = reference.index();
        let ni = node.index();
        let ghost s0 = store.values();
        let rd = *store.at(ri);
        let pi = rd.parent.unwrap();
        let ghost c0 = s0[pi as int].children@;
        let ghost k = child_pos(s0, ri);
        proof {
            assert(wf_node(s0, ri));
            assert(wf_node(s0, ni));
            assert(c0.contains(ri));
            assert(0 <= k < c0.len() && c0[k] == ri);
            assert(wf_node(s0, pi));
            assert(child_at_ok(s0, pi, k));
            if k > 0 {
                assert(child_at_ok(s0, pi, k - 1));
                assert(wf_node(s0, c0[k - 1]));
            }
        }
        {
            let nref = store.at_mut(ni);
            nref.previous_sibling = rd.previous_sibling;
            nref.next_sibling = Some(ri);
            nref.parent = Some(pi);
        }
        match rd.previous_sibling {
            Some(pr) => {
                let prref = store.at_mut(pr);
                prref.next_sibling = Some(ni);
            },
            None => {
                let pref = store.at_mut(pi);
                pref.first_child = Some(ni);
            },
        }
        {
            let rref = store.at_mut(ri);
            rref.previous_sibling = Some(ni);
        }
        let pref = store.at_mut(pi);
        pref.children = Ghost(c0.insert(k, ni));
        proof {
            let s1 = store.values();
            c0.insert_ensures(k, ni);
            assert(inserted_at(s0, s1, pi, ni, k));
            lemma_insert_preserves_wf(s0, s1, pi, ni, k);
        }
    }

    /// Insert `node` immediately after `reference`, which must be in a tree;
    /// the incoming node must be detached and distinct from the reference
    /// and from its parent.
    pub fn insert_after(store: &mut DomStore<Node>, reference: &Dom<Node>, node: Dom<Node>)
        requires
            tree_wf(old(store).values()),
            reference.index() < old(store).len(),
            node.index() < old(store).len(),
            node.index() != reference.index(),
            !detached(old(store).values(), reference.index()),
            detached(old(store).values(), node.index()),
            Some(node.index()) != old(store).values()[reference.index() as int].parent,
        ensures
            tree_wf(final(store).values()),
            final(store).counts() == old(store).counts(),
            inserted_at(
                old(store).values(),
                final(store).values(),
                old(store).values()[reference.index() as int].parent.unwrap(),
                node.index(),
                child_pos(old(store).values(), reference.index()) + 1,
            ),
    {
        let ri = reference.index();
        let ni = node.index();
        let ghost s0 = store.values();
        let rd = *store.at(ri);
        let pi = rd.parent.unwrap();
        let ghost c0 = s0[pi as int].children@;
        let ghost k = child_pos(s0, ri);
        proof {
            assert(wf_node(s0, ri));
            assert(wf_node(s0, ni));
            assert(c0.contains(ri));
            assert(0 <= k < c0.len() && c0[k] == ri);
            assert(wf_node(s0, pi));
            assert(child_at_ok(s0, pi, k));
            if k < c0.len() - 1 {
                assert(child_at_ok(s0, pi, k + 1));
                assert(wf_node(s0, c0[k + 1]));
            }
        }
        {
            let nref = store.at_mut(ni);
            nref.previous_sibling = Some(ri);
            nref.next_sibling = rd.next_sibling;
            nref.parent = Some(pi);
        }
        match rd.next_sibling {
            Some(nx) => {
                let nxref = store.at_mut(nx);
                nxref.previous_sibling = Some(ni);
            },
            None => {
                let pref = store.at_mut(pi);
                pref.last_child = Some(ni);
            },
        }
        {
            let rref = store.at_mut(ri);
            rref.next_sibling = Some(ni);
        }
        let pref = store.at_mut(pi);
        pref.children = Ghost(c0.insert(k + 1, ni));
        proof {
            let s1 = store.values();
            c0.insert_ensures(k + 1, ni);
            assert(inserted_at(s0, s1, pi, ni, k + 1));
            lemma_insert_preserves_wf(s0, s1, pi, ni, k + 1);
        }
    }

    /// Detach the subtree that `node` is the root of: remove `node` from its
    /// current position, relinking its former neighbours and its parent's
    /// child delimiters, and clear `node`'s own position links. A no-op on
    /// an already-detached node.
    pub fn detach(store: &mut DomStore<Node>, node: &Dom<Node>)
        requires
            tree_wf(old(store).values()),
            node.index() < old(store).len(),
        ensures
            tree_wf(final(store).values()),
            final(store).counts() == old(store).counts(),
            detached(old(store).values(), node.index()) ==> final(store).values() == old(
                store,
            ).values(),
            !detached(old(store).values(), node.index()) ==> unlinked_at(
                old(store).values(),
                final(store).values(),
                node.index(),
            ),
            detached(final(store).values(), node.index()),
    {
        let ni = node.index();
        let ghost s0 = store.values();
        let nd = *store.at(ni);
        proof {
            assert(wf_node(s0, ni));
        }
        match nd.parent {
            None => {},
            Some(pi) => {
                let ghost c0 = s0[pi as int].children@;
                let ghost k = child_pos(s0, ni);
                proof {
                    assert(c0.contains(ni));
                    assert(0 <= k < c0.len() && c0[k] == ni);
                    assert(wf_node(s0, pi));
                    assert(child_at_ok(s0, pi, k));
                    if k > 0 {
                        assert(child_at_ok(s0, pi, k - 1));
                        assert(wf_node(s0, c0[k - 1]));
                    }
                    if k < c0.len() - 1 {
                        assert(child_at_ok(s0, pi, k + 1));
                        assert(wf_node(s0, c0[k + 1]));
                    }
                }
                match nd.previous_sibling {
                    Some(pr) => {
                        let prref = store.at_mut(pr);
                        prref.next_sibling = nd.next_sibling;
                    },
                    None => {},
                }
                match nd.next_sibling {
                    Some(nx) => {
                        let nxref = store.at_mut(nx);
                        nxref.previous_sibling = nd.previous_sibling;
                    },
                    None => {},
                }
                {
                    let pref = store.at_mut(pi);
                    if nd.previous_sibling.is_none() {
                        pref.first_child = nd.next_sibling;
                    }
                    if nd.next_sibling.is_none() {
                        pref.last_child = nd.previous_sibling;
                    }
                    pref.children = Ghost(c0.remove(k));
                }
                {
                    let nref = store.at_mut(ni);
                    nref.parent = None;
                    nref.previous_sibling = None;
                    nref.next_sibling = None;
                }
                proof {
                    let s1 = store.values();
                    c0.remove_ensures(k);
                    assert(unlinked_at(s0, s1, ni));
                    lemma_unlink_preserves_wf(s0, s1, ni);
                }
            },
        }
    }
}

} // verus!
