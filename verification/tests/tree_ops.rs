use binary_tree::tree::Node;

// Values are routed by comparing the stored value with the incoming one:
// stored < incoming goes left, everything else (including equals) goes
// right. The tests below pin that rule and the value-reading `height`.

#[test]
fn insertion_is_deterministic() {
    let values: [i64; 7] = [10, 5, 15, 12, 20, 5, 10];
    let mut a = Node::new(8);
    let mut b = Node::new(8);
    for v in values {
        a.insert(v);
        b.insert(v);
    }
    // The rendered layout encodes the shape and the value at every
    // position, so equal layouts mean structurally identical trees.
    assert_eq!(a.draw(0), b.draw(0));
    let mut ia: Vec<i64> = Vec::new();
    let mut ib: Vec<i64> = Vec::new();
    a.inorder(&mut ia);
    b.inorder(&mut ib);
    assert_eq!(ia, ib);
    assert_eq!(a.height(), b.height());
    assert_eq!(a.is_balanced(), b.is_balanced());
}

#[test]
fn inserted_values_are_found() {
    let values: [i64; 8] = [3, 1, 4, 1, 5, 9, 2, 6];
    let mut t = Node::new(7);
    for v in values {
        t.insert(v);
    }
    assert!(t.has(7));
    for v in values {
        assert!(t.has(v));
    }

    // Same values, different order.
    let mut u = Node::new(7);
    for v in values.iter().rev() {
        u.insert(*v);
    }
    for v in values {
        assert!(u.has(v));
    }
}

#[test]
fn absent_values_are_not_found() {
    // Populate only from 0..=50 and query strictly outside that range.
    let mut t = Node::new(25);
    for v in [0i64, 10, 20, 30, 40, 50] {
        t.insert(v);
    }
    assert!(!t.has(-1));
    assert!(!t.has(51));
    assert!(!t.has(1000));
    assert!(!t.has(i64::MIN));
    assert!(!t.has(i64::MAX));
}

#[test]
fn inorder_length_counts_every_insert() {
    let mut t = Node::new(0);
    let mut expected: usize = 1; // the root
    for v in [5i64, 5, 5, -2, 9, 0, 0] {
        t.insert(v);
        expected += 1;
        let mut out: Vec<i64> = Vec::new();
        t.inorder(&mut out);
        assert_eq!(out.len(), expected);
    }
}

#[test]
fn inorder_follows_structure_not_ascending_order() {
    // stored < incoming goes left, so larger values pile up on the left
    // and the in-order sequence of distinct values comes out descending.
    let mut t = Node::new(10);
    for v in [5i64, 15, 12, 20] {
        t.insert(v);
    }
    let mut out: Vec<i64> = Vec::new();
    t.inorder(&mut out);
    assert_eq!(out, vec![20, 15, 12, 10, 5]);
}

#[test]
fn height_reads_child_values_not_depth() {
    // root = 5, then insert 3 (5 < 3 is false: right child), then insert 8
    // (5 < 8: left child). height() compares the child *values* 8 and 3,
    // not the child subtree depths, and returns the larger plus one: 9.
    // A true depth computation would have returned 2.
    let mut t = Node::new(5);
    t.insert(3);
    t.insert(8);
    assert_eq!(t.height(), 9);
}

#[test]
fn height_with_one_or_no_child() {
    // No children: both quantities are zero, so the height is 1,
    // whatever the root value.
    assert_eq!(Node::new(42).height(), 1);
    assert_eq!(Node::new(-5).height(), 1);

    // Only a left child: its value 10 wins over the absent side's zero.
    let mut l = Node::new(2);
    l.insert(10);
    assert_eq!(l.height(), 11);

    // Only a right child with a negative value: zero wins.
    let mut r = Node::new(0);
    r.insert(-3);
    assert_eq!(r.height(), 1);
}

#[test]
fn height_at_the_conversion_limit() {
    // The largest child value the conversion still accepts.
    let big: i64 = (i32::MAX - 1) as i64;
    let mut t = Node::new(0);
    t.insert(big); // 0 < big: left child
    assert_eq!(t.height(), i32::MAX);
}

#[test]
fn single_node_is_balanced_with_height_one() {
    let t = Node::new(42);
    assert!(t.is_balanced());
    assert_eq!(t.height(), 1);
}

#[test]
fn balance_verdict_follows_child_heights() {
    // root 1 with left child 2 and right child 0: both sides report
    // height 1, so the tree is balanced.
    let mut ok = Node::new(1);
    ok.insert(2);
    ok.insert(0);
    assert!(ok.is_balanced());
    assert_eq!(ok.height(), 3);

    // root 10, left subtree rooted at 15 with children 20 and 12, right
    // child 5: the left side reports height(15) = 21, the right side
    // height(5) = 1, and |21 - 1| > 1, so the tree is not balanced.
    let mut t = Node::new(10);
    for v in [5i64, 15, 12, 20] {
        t.insert(v);
    }
    assert!(!t.is_balanced());
}

#[test]
fn draw_layout_indents_by_depth() {
    let mut t = Node::new(10);
    for v in [5i64, 15, 12, 20] {
        t.insert(v);
    }
    // Left subtree first (indented one level, its own children two), then
    // the root at the starting indentation, then the right subtree.
    assert_eq!(
        t.draw(0),
        vec![(10, 20), (5, 15), (10, 12), (0, 10), (5, 5)]
    );
    // A non-zero starting indentation shifts every line by that amount.
    assert_eq!(
        t.draw(3),
        vec![(13, 20), (8, 15), (13, 12), (3, 10), (8, 5)]
    );
}

#[test]
fn duplicate_of_root_goes_right() {
    // Inserting a duplicate of the root: stored < incoming is false for
    // equal values, so the duplicate becomes the right child, and the
    // membership query succeeds already at the root.
    let mut t = Node::new(7);
    t.insert(7);
    assert_eq!(t.draw(0), vec![(0, 7), (5, 7)]);
    assert!(t.has(7));
    let mut out: Vec<i64> = Vec::new();
    t.inorder(&mut out);
    assert_eq!(out, vec![7, 7]);
}

#[test]
fn read_only_operations_are_idempotent() {
    let mut t = Node::new(6);
    for v in [2i64, 9, 6, 4] {
        t.insert(v);
    }
    assert_eq!(t.has(4), t.has(4));
    assert_eq!(t.has(100), t.has(100));
    let mut first: Vec<i64> = Vec::new();
    let mut second: Vec<i64> = Vec::new();
    t.inorder(&mut first);
    t.inorder(&mut second);
    assert_eq!(first, second);
    assert_eq!(t.height(), t.height());
    assert_eq!(t.is_balanced(), t.is_balanced());
    assert_eq!(t.draw(0), t.draw(0));
}
