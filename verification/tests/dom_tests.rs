use domtree::{Dom, DomStore};

#[test]
fn clone_increases_count() {
    let mut store = DomStore::new();
    let dom1 = Dom::new(&mut store, 1_u32);
    let dom2 = dom1.clone(&mut store);

    assert_eq!(dom1.count(&store), dom2.count(&store));
    assert_eq!(dom1.count(&store), 2);
}

#[test]
fn from_ref_increases_count() {
    let mut store = DomStore::new();
    let dom = Dom::new(&mut store, 1_u32);
    let dom_from = Dom::from(&mut store, dom.index());

    assert_eq!(dom.count(&store), dom_from.count(&store));
    assert_eq!(dom.count(&store), 2);
}

#[test]
fn multi_mut_same_dom() {
    let mut store = DomStore::new();
    let dom = Dom::new(&mut store, 1234_u32);

    // Both exclusive borrows go through the same handle; each one borrows
    // the store, so the first must end before the second begins.
    #[allow(unused_variables)]
    let x: &mut u32 = dom.deref_mut(&mut store);
    let y: &mut u32 = dom.deref_mut(&mut store);

    let b = *y;

    assert_eq!(b, 1234);
}

#[test]
fn ref_and_mut_same_dom() {
    let mut store = DomStore::new();
    let dom = Dom::new(&mut store, 1234_u32);

    // A shared borrow and an exclusive borrow through the same handle; the
    // shared one must end before the exclusive one begins.
    #[allow(unused_variables)]
    let x: &u32 = dom.deref(&store);
    let y: &mut u32 = dom.deref_mut(&mut store);

    let b = *y;

    assert_eq!(b, 1234);
}

#[test]
fn multi_mut_different_dom() {
    let mut store = DomStore::new();
    let dom1 = Dom::new(&mut store, 1234_u32);
    let dom2 = dom1.clone(&mut store);

    // Two handles alias the same slot: what one writes, the other observes.
    let x: u32 = *dom1.deref_mut(&mut store);
    let y: u32 = *dom2.deref_mut(&mut store);

    let a = x;
    let b = y;

    assert_eq!(a, b);
}

#[test]
fn clone_leaves_value_unchanged() {
    let mut store = DomStore::new();
    let dom = Dom::new(&mut store, 77_u32);
    let other = Dom::new(&mut store, 5_u32);

    let alias = dom.clone(&mut store);

    assert_eq!(*dom.deref(&store), 77);
    assert_eq!(*alias.deref(&store), 77);
    assert_eq!(*other.deref(&store), 5);
    assert_eq!(other.count(&store), 1);
}

#[test]
fn writes_through_one_handle_seen_by_alias() {
    let mut store = DomStore::new();
    let dom = Dom::new(&mut store, 1_u32);
    let alias = dom.clone(&mut store);

    *dom.deref_mut(&mut store) = 42;

    assert_eq!(*alias.deref(&store), 42);
}
