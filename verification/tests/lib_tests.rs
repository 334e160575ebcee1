use domtree::{is, Hierarchy, Interface};
use domtree::interface::{Document, Element, Node};

#[test]
fn it_works() {
    let result = 2 + 2;
    assert_eq!(result, 4);
}

#[test]
fn init_registers_the_hierarchy() {
    let mut h = Hierarchy::new();
    domtree::init(&mut h);

    assert_eq!(h.inherits_from(Node::id()), None);
    assert_eq!(h.inherits_from(Document::id()), Some(Node::id()));
    assert_eq!(h.inherits_from(Element::id()), Some(Node::id()));

    assert!(is(&h, Document::id(), Node::id()));
    assert!(is(&h, Element::id(), Node::id()));
    assert!(!is(&h, Document::id(), Element::id()));
    assert!(!is(&h, Node::id(), Document::id()));
}
