use rpn_calc::bst_generic;
use rpn_calc::bst_simple;

#[test]
fn first_basics() {
    let mut bst = bst_simple::BST::new();
    assert_eq!(true, bst.insert(1));
    assert_eq!(false, bst.insert(1));
    assert_eq!(true, bst.insert(2));
    assert_eq!(true, bst.insert(3));
    assert_eq!(true, bst.insert(4));
    assert_eq!(true, bst.search(4));
    assert_eq!(false, bst.search(5));
}

#[test]
fn second_basics() {
    let mut bst = bst_generic::BST::<i32>::new();
    assert_eq!(true, bst.insert(10));
    assert_eq!(false, bst.insert(10));
    assert_eq!(true, bst.insert(20));
    assert_eq!(true, bst.insert(30));
    assert_eq!(true, bst.insert(40));
    assert_eq!(true, bst.search(40));
    assert_eq!(false, bst.search(50));
}

#[test]
fn into_iter() {
    let mut bst = bst_generic::BST::<i32>::new();
    bst.insert(8);
    bst.insert(5);
    bst.insert(11);
    bst.insert(4);
    bst.insert(6);
    bst.insert(9);
    bst.insert(12);
    let expected = vec![4, 5, 6, 8, 9, 11, 12];
    let mut it = bst.into_iter();
    for expected in expected.into_iter() {
        let val = it.next();
        assert_eq!(Some(expected), val);
    }
    assert_eq!(None, it.next());
}

#[test]
fn first_search_empty() {
    let bst = bst_simple::BST::new();
    assert_eq!(false, bst.search(0));
}

#[test]
fn second_unbalanced_chain() {
    let mut bst = bst_generic::BST::<i32>::new();
    for k in [5, 4, 3, 2, 1] {
        assert_eq!(true, bst.insert(k));
    }
    for k in [1, 2, 3, 4, 5] {
        assert_eq!(true, bst.search(k));
    }
    assert_eq!(false, bst.search(6));
    let mut it = bst.into_iter();
    for k in [1, 2, 3, 4, 5] {
        assert_eq!(Some(k), it.next());
    }
    assert_eq!(None, it.next());
}
