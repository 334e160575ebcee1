use domtree::{Dom, DomStore, Hierarchy};
use domtree::interface::{Document, Element, Node};

#[test]
fn document_with_no_element() {
    let mut store = DomStore::new();
    let document = Document::new(&mut store);
    let h = Hierarchy::new();

    assert!(Document::element(&document, &store, &h).is_none());
}

#[test]
fn document_with_single_element() {
    let mut h = Hierarchy::new();
    domtree::init(&mut h);
    let mut store = DomStore::new();

    let document = Document::new(&mut store);
    let element = Element::new(&mut store);
    let element_slot = element.index();

    let dnode: Dom<Node> = document.cast::<Node>(&store, &h).unwrap();
    let enode: Dom<Node> = element.cast::<Node>(&store, &h).unwrap();
    Node::append(&mut store, &dnode, enode);

    let found = Document::element(&document, &store, &h);
    assert!(found.is_some());
    assert_eq!(found.unwrap().index(), element_slot);
}

#[test]
fn document_element_skips_plain_nodes() {
    let mut h = Hierarchy::new();
    domtree::init(&mut h);
    let mut store = DomStore::new();

    let document = Document::new(&mut store);
    let dnode: Dom<Node> = document.cast::<Node>(&store, &h).unwrap();

    let plain = Dom::new(&mut store, Node::new());
    Node::append(&mut store, &dnode, plain);
    assert!(Document::element(&document, &store, &h).is_none());

    let element = Element::new(&mut store);
    let element_slot = element.index();
    let enode: Dom<Node> = element.cast::<Node>(&store, &h).unwrap();
    Node::append(&mut store, &dnode, enode);

    let found = Document::element(&document, &store, &h);
    assert_eq!(found.unwrap().index(), element_slot);
}
