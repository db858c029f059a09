use rustor::freelist::freetree::FreeTree;

#[test]
fn freetree_test_new() {
    let tree = FreeTree::new(1000);

    assert_eq!(tree.root.size, 1000);
    assert!(tree.root.left.is_none());
    assert!(tree.root.right.is_none());
}

#[test]
fn test_insert() {
}

#[test]
fn test_search() {
}

#[test]
fn test_sort() {
}

#[test]
fn test_push_and_find() {
    let mut tree = FreeTree::new(100);
    tree.push(40, 7);
    tree.push(200, 11);
    tree.push(40, 9);

    let n = tree.find(150).unwrap();
    assert_eq!(n.size, 200);
    assert_eq!(n.locations, vec![11]);

    let n = tree.find(40).unwrap();
    assert!(n.size >= 40);

    let n = tree.find_flat(40).unwrap();
    assert_eq!(n.size, 40);
    assert_eq!(n.locations, vec![7, 9]);

    assert!(tree.find(201).is_none());
    assert!(tree.find_flat(201).is_none());
}
