use domtree::{Dom, DomStore};
use domtree::interface::Node;

#[test]
fn detach_new_node() {
    let mut store = DomStore::new();
    let node = Dom::new(&mut store, Node::new());

    Node::detach(&mut store, &node);

    assert!(node.deref(&store).parent().is_none());
    assert!(node.deref(&store).previous_sibling().is_none());
    assert!(node.deref(&store).next_sibling().is_none());
    assert!(node.deref(&store).first_child().is_none());
    assert!(node.deref(&store).last_child().is_none());
}

#[test]
fn detach_node_without_siblings() {
    let mut store = DomStore::new();
    let parent = Dom::new(&mut store, Node::new());
    let child = Dom::new(&mut store, Node::new());

    let h1 = child.clone(&mut store);
    Node::append(&mut store, &parent, h1);

    Node::detach(&mut store, &child);

    assert!(child.deref(&store).parent().is_none());
    assert!(child.deref(&store).previous_sibling().is_none());
    assert!(child.deref(&store).next_sibling().is_none());
    assert!(child.deref(&store).first_child().is_none());
    assert!(child.deref(&store).last_child().is_none());

    assert!(parent.deref(&store).first_child().is_none());
    assert!(parent.deref(&store).last_child().is_none());
}

#[test]
fn detach_node_with_siblings() {
    let mut store = DomStore::new();
    let parent = Dom::new(&mut store, Node::new());
    let first = Dom::new(&mut store, Node::new());
    let last = Dom::new(&mut store, Node::new());
    let node = Dom::new(&mut store, Node::new());

    let h2 = first.clone(&mut store);
    Node::append(&mut store, &parent, h2);
    let h3 = node.clone(&mut store);
    Node::append(&mut store, &parent, h3);
    let h4 = last.clone(&mut store);
    Node::append(&mut store, &parent, h4);

    Node::detach(&mut store, &node);

    assert!(node.deref(&store).parent().is_none());
    assert!(node.deref(&store).previous_sibling().is_none());
    assert!(node.deref(&store).next_sibling().is_none());
    assert!(node.deref(&store).first_child().is_none());
    assert!(node.deref(&store).last_child().is_none());

    assert!(first.deref(&store).parent().is_some());
    assert!(last.deref(&store).parent().is_some());
    assert!(first.deref(&store).parent().unwrap() == parent);
    assert!(last.deref(&store).parent().unwrap() == parent);

    assert!(first.deref(&store).next_sibling().is_some());
    assert!(last.deref(&store).previous_sibling().is_some());
    assert!(first.deref(&store).next_sibling().unwrap() == last);
    assert!(last.deref(&store).previous_sibling().unwrap() == first);

    assert!(parent.deref(&store).first_child().is_some());
    assert!(parent.deref(&store).last_child().is_some());
    assert!(parent.deref(&store).first_child().unwrap() == first);
    assert!(parent.deref(&store).last_child().unwrap() == last);
}

#[test]
fn detach_node_with_next_sibling() {
    let mut store = DomStore::new();
    let parent = Dom::new(&mut store, Node::new());
    let node = Dom::new(&mut store, Node::new());
    let next = Dom::new(&mut store, Node::new());

    let h5 = node.clone(&mut store);
    Node::append(&mut store, &parent, h5);
    let h6 = next.clone(&mut store);
    Node::append(&mut store, &parent, h6);

    Node::detach(&mut store, &node);

    assert!(node.deref(&store).parent().is_none());
    assert!(node.deref(&store).previous_sibling().is_none());
    assert!(node.deref(&store).next_sibling().is_none());
    assert!(node.deref(&store).first_child().is_none());
    assert!(node.deref(&store).last_child().is_none());

    assert!(parent.deref(&store).first_child().is_some());
    assert!(parent.deref(&store).last_child().is_some());
    assert!(parent.deref(&store).first_child().unwrap() == parent.deref(&store).last_child().unwrap());

    assert!(next.deref(&store).parent().is_some());
    assert!(next.deref(&store).parent().unwrap() == parent);
    assert!(next.deref(&store).next_sibling().is_none());
    assert!(next.deref(&store).previous_sibling().is_none());
}

#[test]
fn append_children_in_order() {
    let mut store = DomStore::new();
    let r = Dom::new(&mut store, Node::new());
    let c1 = Dom::new(&mut store, Node::new());
    let c2 = Dom::new(&mut store, Node::new());
    let c3 = Dom::new(&mut store, Node::new());

    let h7 = c1.clone(&mut store);
    Node::append(&mut store, &r, h7);
    let h8 = c2.clone(&mut store);
    Node::append(&mut store, &r, h8);
    let h9 = c3.clone(&mut store);
    Node::append(&mut store, &r, h9);

    assert!(r.deref(&store).first_child().unwrap() == c1);
    assert!(r.deref(&store).last_child().unwrap() == c3);
    assert!(c1.deref(&store).next_sibling().unwrap() == c2);
    assert!(c2.deref(&store).previous_sibling().unwrap() == c1);
    assert!(c3.deref(&store).previous_sibling().unwrap() == c2);
    assert!(c2.deref(&store).next_sibling().unwrap() == c3);
    assert!(c1.deref(&store).previous_sibling().is_none());
    assert!(c3.deref(&store).next_sibling().is_none());
}

#[test]
fn prepend_makes_new_first_child() {
    let mut store = DomStore::new();
    let r = Dom::new(&mut store, Node::new());
    let a = Dom::new(&mut store, Node::new());
    let b = Dom::new(&mut store, Node::new());

    let h10 = a.clone(&mut store);
    Node::append(&mut store, &r, h10);
    let h11 = b.clone(&mut store);
    Node::prepend(&mut store, &r, h11);

    assert!(r.deref(&store).first_child().unwrap() == b);
    assert!(r.deref(&store).last_child().unwrap() == a);
    assert!(b.deref(&store).next_sibling().unwrap() == a);
    assert!(a.deref(&store).previous_sibling().unwrap() == b);
    assert!(b.deref(&store).previous_sibling().is_none());
    assert!(a.deref(&store).next_sibling().is_none());
}

#[test]
fn insert_before_links_neighbours() {
    let mut store = DomStore::new();
    let r = Dom::new(&mut store, Node::new());
    let c1 = Dom::new(&mut store, Node::new());
    let c2 = Dom::new(&mut store, Node::new());
    let c3 = Dom::new(&mut store, Node::new());

    let h12 = c1.clone(&mut store);
    Node::append(&mut store, &r, h12);
    let h13 = c3.clone(&mut store);
    Node::append(&mut store, &r, h13);
    let h14 = c2.clone(&mut store);
    Node::insert_before(&mut store, &c3, h14);

    assert!(c2.deref(&store).parent().unwrap() == r);
    assert!(c1.deref(&store).next_sibling().unwrap() == c2);
    assert!(c2.deref(&store).previous_sibling().unwrap() == c1);
    assert!(c2.deref(&store).next_sibling().unwrap() == c3);
    assert!(c3.deref(&store).previous_sibling().unwrap() == c2);
    assert!(r.deref(&store).first_child().unwrap() == c1);
    assert!(r.deref(&store).last_child().unwrap() == c3);
}

#[test]
fn insert_before_first_child_updates_parent() {
    let mut store = DomStore::new();
    let r = Dom::new(&mut store, Node::new());
    let c1 = Dom::new(&mut store, Node::new());
    let c0 = Dom::new(&mut store, Node::new());

    let h15 = c1.clone(&mut store);
    Node::append(&mut store, &r, h15);
    let h16 = c0.clone(&mut store);
    Node::insert_before(&mut store, &c1, h16);

    assert!(r.deref(&store).first_child().unwrap() == c0);
    assert!(c0.deref(&store).next_sibling().unwrap() == c1);
    assert!(c0.deref(&store).previous_sibling().is_none());
}

#[test]
fn insert_after_links_neighbours() {
    let mut store = DomStore::new();
    let r = Dom::new(&mut store, Node::new());
    let c1 = Dom::new(&mut store, Node::new());
    let c2 = Dom::new(&mut store, Node::new());
    let c3 = Dom::new(&mut store, Node::new());

    let h17 = c1.clone(&mut store);
    Node::append(&mut store, &r, h17);
    let h18 = c3.clone(&mut store);
    Node::append(&mut store, &r, h18);
    let h19 = c2.clone(&mut store);
    Node::insert_after(&mut store, &c1, h19);

    assert!(c2.deref(&store).parent().unwrap() == r);
    assert!(c1.deref(&store).next_sibling().unwrap() == c2);
    assert!(c2.deref(&store).previous_sibling().unwrap() == c1);
    assert!(c2.deref(&store).next_sibling().unwrap() == c3);
    assert!(c3.deref(&store).previous_sibling().unwrap() == c2);
}

#[test]
fn insert_after_last_child_updates_parent() {
    let mut store = DomStore::new();
    let r = Dom::new(&mut store, Node::new());
    let c1 = Dom::new(&mut store, Node::new());
    let c2 = Dom::new(&mut store, Node::new());

    let h20 = c1.clone(&mut store);
    Node::append(&mut store, &r, h20);
    let h21 = c2.clone(&mut store);
    Node::insert_after(&mut store, &c1, h21);

    assert!(r.deref(&store).last_child().unwrap() == c2);
    assert!(c2.deref(&store).previous_sibling().unwrap() == c1);
    assert!(c2.deref(&store).next_sibling().is_none());
}

#[test]
fn append_then_detach_restores_child_list() {
    let mut store = DomStore::new();
    let r = Dom::new(&mut store, Node::new());
    let c1 = Dom::new(&mut store, Node::new());
    let c2 = Dom::new(&mut store, Node::new());
    let extra = Dom::new(&mut store, Node::new());

    let h22 = c1.clone(&mut store);
    Node::append(&mut store, &r, h22);
    let h23 = c2.clone(&mut store);
    Node::append(&mut store, &r, h23);

    let h24 = extra.clone(&mut store);
    Node::append(&mut store, &r, h24);
    Node::detach(&mut store, &extra);

    assert!(r.deref(&store).first_child().unwrap() == c1);
    assert!(r.deref(&store).last_child().unwrap() == c2);
    assert!(c1.deref(&store).next_sibling().unwrap() == c2);
    assert!(c2.deref(&store).next_sibling().is_none());
    assert!(c2.deref(&store).previous_sibling().unwrap() == c1);
    assert!(extra.deref(&store).parent().is_none());
    assert!(extra.deref(&store).previous_sibling().is_none());
    assert!(extra.deref(&store).next_sibling().is_none());
}

#[test]
fn sibling_walk_reaches_last_child() {
    let mut store = DomStore::new();
    let r = Dom::new(&mut store, Node::new());
    let c1 = Dom::new(&mut store, Node::new());
    let c2 = Dom::new(&mut store, Node::new());
    let c3 = Dom::new(&mut store, Node::new());

    let h1 = c1.clone(&mut store);
    Node::append(&mut store, &r, h1);
    let h2 = c2.clone(&mut store);
    Node::append(&mut store, &r, h2);
    let h3 = c3.clone(&mut store);
    Node::append(&mut store, &r, h3);

    // Walking next_sibling from first_child reaches last_child in exactly
    // child-count − 1 steps, and the reverse walk matches.
    let mut steps: u32 = 0;
    let mut curr = r.deref(&store).first_child().unwrap();
    while let Some(next) = curr.deref(&store).next_sibling() {
        curr = next;
        steps += 1;
    }
    assert_eq!(steps, 2);
    assert!(curr == r.deref(&store).last_child().unwrap());

    let mut back: u32 = 0;
    let mut rev = r.deref(&store).last_child().unwrap();
    while let Some(prev) = rev.deref(&store).previous_sibling() {
        rev = prev;
        back += 1;
    }
    assert_eq!(back, 2);
    assert!(rev == r.deref(&store).first_child().unwrap());
}

#[test]
fn counts_unchanged_by_tree_mutation() {
    let mut store = DomStore::new();
    let r = Dom::new(&mut store, Node::new());
    let c = Dom::new(&mut store, Node::new());

    let handle = c.clone(&mut store);
    assert_eq!(c.count(&store), 2);

    Node::append(&mut store, &r, handle);
    assert_eq!(c.count(&store), 2);
    assert_eq!(r.count(&store), 1);

    Node::detach(&mut store, &c);
    assert_eq!(c.count(&store), 2);
}
