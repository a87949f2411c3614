use librualg::segment_tree::{RmqMax, RmqMin, Rsq};

#[test]
fn test_rsq() {
    let arr = vec![1, 2, 3, 4, 5];
    let tree = Rsq::new(&arr);

    assert_eq!(tree.query(4, 4).unwrap(), 5);

    assert_eq!(tree.query(0, 4).unwrap(), 15);
    assert_eq!(tree.query(1, 4).unwrap(), 14);
    assert_eq!(tree.query(4, 1).unwrap(), 14);
    assert_eq!(tree.query(3, 1).unwrap(), 9);
    assert_eq!(tree.query(4, 0).unwrap(), 15);

    assert_eq!(tree.query(3, 11), None);
    assert_eq!(tree.query(3, 5), None);

    let tree = Rsq::new(&vec![]);
    assert_eq!(tree.query(0, 0), None);
}

#[test]
fn test_rsq_update() {
    let arr = vec![1, 2, 3, 4, 5];
    let mut tree = Rsq::new(&arr);

    assert_eq!(tree.query(0, 4).unwrap(), 15);
    tree.update(1, 7);
    assert_eq!(tree.query(0, 4).unwrap(), 20);
    tree.update(12, 7);
    assert_eq!(tree.query(0, 4).unwrap(), 20);
    tree.update(4, 0);
    assert_eq!(tree.query(0, 4).unwrap(), 15);
    tree.update(0, 3);
    assert_eq!(tree.query(0, 0).unwrap(), 3);
}

#[test]
fn test_rmq_max() {
    let arr = vec![1, 2, 3, 4, 5];
    let tree = RmqMax::new(&arr);

    assert_eq!(tree.query(0, 4).unwrap(), 5);
    assert_eq!(tree.query(1, 4).unwrap(), 5);
    assert_eq!(tree.query(4, 1).unwrap(), 5);
    assert_eq!(tree.query(3, 1).unwrap(), 4);
    assert_eq!(tree.query(2, 2).unwrap(), 3);
    assert_eq!(tree.query(2, 7), None);
}

#[test]
fn test_rmq_max_update() {
    let arr = vec![1, 2, 3, 4, 5];
    let mut tree = RmqMax::new(&arr);
    assert_eq!(tree.query(0, 4).unwrap(), 5);
    tree.update(0, 7);
    assert_eq!(tree.query(0, 4).unwrap(), 7);
}

#[test]
fn test_rmq_min() {
    let arr = vec![1, 2, 3, 4, 5];
    let tree = RmqMin::new(&arr);

    assert_eq!(tree.query(0, 4).unwrap(), 1);
    assert_eq!(tree.query(1, 4).unwrap(), 2);
    assert_eq!(tree.query(4, 1).unwrap(), 2);
    assert_eq!(tree.query(3, 1).unwrap(), 2);
    assert_eq!(tree.query(2, 2).unwrap(), 3);
    assert_eq!(tree.query(2, 7), None);
}

#[test]
fn test_rmq_min_update() {
    let arr = vec![1, 2, 3, 4, 5];
    let mut tree = RmqMin::new(&arr);
    assert_eq!(tree.query(0, 4).unwrap(), 1);
    tree.update(0, 7);
    assert_eq!(tree.query(0, 4).unwrap(), 2);
}
