use rbtree::rb_tree::{Color, RBNode, RBTree};

fn shape(t: &RBTree) -> Option<(i64, Color, Option<(i64, Color)>, Option<(i64, Color)>)> {
    let kc = |n: &Option<Box<RBNode>>| n.as_ref().map(|b| (b.key, b.color));
    t.root().as_ref().map(|r| (r.key, r.color, kc(&r.left), kc(&r.right)))
}

fn is_ascending(v: &[i64]) -> bool {
    v.windows(2).all(|w| w[0] < w[1])
}

#[test]
fn rb_tree_test() {
    let mut rbt = RBTree::new(50);
    rbt.insert(29);
    rbt.insert(77);
    rbt.insert(10);
    rbt.insert(30);
    rbt.insert(55);
    rbt.insert(80);
    rbt.insert(18);
    rbt.insert(51);
    rbt.insert(66);
    rbt.insert(90);
    rbt.delete(&29);
    assert!(rbt.check_invariants());
    assert!(rbt.check_order());
    assert_eq!(rbt.in_order(), vec![10, 18, 30, 50, 51, 55, 66, 77, 80, 90]);
    assert!(!rbt.contains(&29));
}

#[test]
fn three_ascending_inserts_rotate_once() {
    let mut t = RBTree::default();
    t.insert(10);
    t.insert(20);
    t.insert(30);
    assert_eq!(
        shape(&t),
        Some((20, Color::Black, Some((10, Color::Red)), Some((30, Color::Red))))
    );
    assert!(t.check_invariants());
}

#[test]
fn lookup_on_empty_tree() {
    let t = RBTree::default();
    assert!(!t.contains(&7));
    assert_eq!(t.get(&7), None);
    assert_eq!(t.in_order(), Vec::<i64>::new());
    assert!(t.check_invariants());
}

#[test]
fn get_returns_stored_key() {
    let mut t = RBTree::new(4);
    t.insert(9);
    assert_eq!(t.get(&9), Some(&9));
    assert_eq!(t.get(&5), None);
    assert!(t.contains(&4));
}

#[test]
fn delete_sole_key_empties_tree() {
    let mut t = RBTree::new(5);
    t.delete(&5);
    assert!(t.root().is_none());
    assert!(t.in_order().is_empty());
    assert!(t.check_invariants());
}

#[test]
fn delete_root_of_two_node_tree_promotes_child() {
    let mut t = RBTree::new(5);
    t.insert(7);
    t.delete(&5);
    assert_eq!(shape(&t), Some((7, Color::Black, None, None)));

    let mut u = RBTree::new(5);
    u.insert(3);
    u.delete(&5);
    assert_eq!(shape(&u), Some((3, Color::Black, None, None)));
}

#[test]
fn duplicate_insert_and_absent_delete_change_nothing() {
    let mut t = RBTree::default();
    for k in [8, 3, 11, 1, 5, 9, 14] {
        t.insert(k);
    }
    let before = t.in_order();
    let shape_before = shape(&t);
    t.insert(5);
    assert_eq!(t.in_order(), before);
    assert_eq!(shape(&t), shape_before);
    t.delete(&42);
    assert_eq!(t.in_order(), before);
    assert_eq!(shape(&t), shape_before);
    assert!(t.check_invariants());
}

#[test]
fn invariants_hold_after_each_insert_and_delete() {
    let mut t = RBTree::default();
    let mut keys: Vec<i64> = Vec::new();
    let mut x: i64 = 17;
    for _ in 0..200 {
        x = (x * 73 + 41) % 1009;
        t.insert(x);
        if !keys.contains(&x) {
            keys.push(x);
        }
        assert!(t.check_invariants());
        assert!(t.check_order());
        let got = t.in_order();
        assert!(is_ascending(&got));
        let mut want = keys.clone();
        want.sort();
        assert_eq!(got, want);
    }
    for (i, k) in keys.clone().iter().enumerate() {
        if i % 2 == 0 {
            t.delete(k);
            keys.retain(|y| y != k);
            assert!(t.check_invariants());
            let mut want = keys.clone();
            want.sort();
            assert_eq!(t.in_order(), want);
        }
    }
}

#[test]
fn insert_all_then_delete_all_leaves_empty_tree() {
    let n: i64 = 101;
    let mut t = RBTree::default();
    for i in 0..n {
        t.insert((i * 37) % n);
    }
    assert_eq!(t.in_order(), (0..n).collect::<Vec<i64>>());
    for i in 0..n {
        t.delete(&((i * 59) % n));
        assert!(t.check_invariants());
    }
    assert!(t.root().is_none());
    assert!(t.in_order().is_empty());
}

#[test]
fn node_constructors_set_color() {
    let r = RBNode::new_red(3);
    let b = RBNode::new_black(4);
    assert_eq!((r.key, r.color), (3, Color::Red));
    assert_eq!((b.key, b.color), (4, Color::Black));
    assert!(r.left.is_none() && r.right.is_none());
    let n = RBNode::new(6, Color::Red);
    assert_eq!((n.key, n.color), (6, Color::Red));
}
