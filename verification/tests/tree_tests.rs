use avl_tree::tree::{Inserted, Tree};

/// In-order key walk of a tree.
fn inorder(t: &Tree<i64>, out: &mut Vec<i64>) {
    if let Tree::With(node) = t {
        inorder(&node.ltree, out);
        out.push(node.key);
        inorder(&node.rtree, out);
    }
}

/// Height computed independently of the library.
fn height(t: &Tree<i64>) -> i64 {
    match t {
        Tree::Empty => 0,
        Tree::With(node) => 1 + std::cmp::max(height(&node.ltree), height(&node.rtree)),
    }
}

/// Every node's children differ in height by at most one.
fn well_balanced(t: &Tree<i64>) -> bool {
    match t {
        Tree::Empty => true,
        Tree::With(node) => {
            (height(&node.ltree) - height(&node.rtree)).abs() <= 1
                && well_balanced(&node.ltree)
                && well_balanced(&node.rtree)
        }
    }
}

/// Structural equality of two trees, key for key and value for value.
fn same_shape(a: &Tree<i64>, b: &Tree<i64>) -> bool {
    match (a, b) {
        (Tree::Empty, Tree::Empty) => true,
        (Tree::With(x), Tree::With(y)) => {
            x.key == y.key
                && x.value == y.value
                && same_shape(&x.ltree, &y.ltree)
                && same_shape(&x.rtree, &y.rtree)
        }
        _ => false,
    }
}

fn build(keys: &[i64]) -> Tree<i64> {
    let mut t = Tree::Empty;
    for &k in keys {
        t.add(k, k);
    }
    t
}

fn key_of(t: &Tree<i64>) -> i64 {
    match t {
        Tree::With(node) => node.key,
        Tree::Empty => panic!("expected a node"),
    }
}

#[test]
fn empty_tree_behaviour() {
    let mut t: Tree<i64> = Tree::Empty;
    assert_eq!(t.level_max(), 0);
    assert_eq!(t.level_min(), 0);
    assert!(t.get(5).is_none());
    let d = t.del(5);
    assert!(matches!(d, Tree::Empty));
    assert!(matches!(t, Tree::Empty));
    assert_eq!(t.print(), "");
}

#[test]
fn add_reports_leaf_then_directions() {
    let mut t: Tree<i64> = Tree::Empty;
    assert_eq!(t.add(10, 10), (Inserted::Leaf, Inserted::Nothing));
    assert_eq!(t.add(20, 20), (Inserted::Right, Inserted::Leaf));
    assert_eq!(t.add(5, 5), (Inserted::Left, Inserted::Leaf));
    assert_eq!(t.add(10, 99), (Inserted::Nothing, Inserted::Nothing));
}

#[test]
fn ascending_chain_triggers_single_left_rotation() {
    // The pure insert-only shape for [10, 20, 30] would be a right chain of
    // height 3; the third insertion must single-left-rotate at the root.
    let t = build(&[10, 20, 30]);
    match &t {
        Tree::With(root) => {
            assert_eq!(root.key, 20);
            assert_eq!(key_of(&root.ltree), 10);
            assert_eq!(key_of(&root.rtree), 30);
        }
        Tree::Empty => panic!("tree is empty"),
    }
    assert_eq!(t.level_max(), 2);
}

#[test]
fn zig_zag_triggers_double_right_rotation() {
    // [30, 10, 20]: inserting 20 between 10 and 30 forces a double right
    // rotation, again yielding root 20 with children 10 and 30.
    let t = build(&[30, 10, 20]);
    match &t {
        Tree::With(root) => {
            assert_eq!(root.key, 20);
            assert_eq!(key_of(&root.ltree), 10);
            assert_eq!(key_of(&root.rtree), 30);
        }
        Tree::Empty => panic!("tree is empty"),
    }
    assert_eq!(t.level_max(), 2);
}

#[test]
fn descending_chain_triggers_single_right_rotation() {
    let t = build(&[30, 20, 10]);
    match &t {
        Tree::With(root) => {
            assert_eq!(root.key, 20);
            assert_eq!(key_of(&root.ltree), 10);
            assert_eq!(key_of(&root.rtree), 30);
        }
        Tree::Empty => panic!("tree is empty"),
    }
}

#[test]
fn zag_zig_triggers_double_left_rotation() {
    let t = build(&[10, 30, 20]);
    match &t {
        Tree::With(root) => {
            assert_eq!(root.key, 20);
            assert_eq!(key_of(&root.ltree), 10);
            assert_eq!(key_of(&root.rtree), 30);
        }
        Tree::Empty => panic!("tree is empty"),
    }
}

#[test]
fn inorder_is_strictly_increasing() {
    let keys = [41, 7, -3, 88, 12, 0, -57, 99, 63, 5, 30, -21, 71, 2, 100];
    let t = build(&keys);
    let mut seen = Vec::new();
    inorder(&t, &mut seen);
    assert_eq!(seen.len(), keys.len());
    for w in seen.windows(2) {
        assert!(w[0] < w[1]);
    }
}

#[test]
fn balance_holds_after_every_single_insertion() {
    let keys = [5, 3, 8, 1, 4, 7, 9, -2, 6, 10, 11, 12, -9, 0, 2];
    let mut t: Tree<i64> = Tree::Empty;
    for &k in &keys {
        t.add(k, k * 100);
        assert!(well_balanced(&t));
    }
}

#[test]
fn round_trip_after_many_insertions() {
    let keys = [15, -4, 23, 8, 42, -16, 4, 0, 99, 37, -50, 61];
    let mut t: Tree<i64> = Tree::Empty;
    for &k in &keys {
        t.add(k, k * 2 + 1);
    }
    for &k in &keys {
        assert_eq!(*t.get(k).unwrap(), k * 2 + 1);
    }
    assert!(t.get(1234).is_none());
}

#[test]
fn duplicate_insert_keeps_first_value_and_shape() {
    let mut t = build(&[5, 3, 8, 1, 4]);
    t.add(3, 333);
    let before = build(&[5, 3, 8, 1, 4]);
    assert!(same_shape(&t, &before));
    assert_eq!(*t.get(3).unwrap(), 3);
    let r = t.add(1, 111);
    assert_eq!(r.0, Inserted::Left);
    assert_eq!(*t.get(1).unwrap(), 1);
    assert!(same_shape(&t, &before));
}

#[test]
fn deletion_detaches_the_whole_branch() {
    // [5, 3, 8, 1, 4, 7, 9] builds a perfectly balanced tree with 3 over
    // 1 and 4; del(3) must hand that whole branch back.
    let mut t = build(&[5, 3, 8, 1, 4, 7, 9]);
    let detached = t.del(3);
    assert!(t.get(3).is_none());
    assert!(t.get(1).is_none());
    assert!(t.get(4).is_none());
    assert_eq!(*t.get(5).unwrap(), 5);
    assert_eq!(*t.get(8).unwrap(), 8);
    assert_eq!(*detached.get(3).unwrap(), 3);
    let mut branch_keys = Vec::new();
    inorder(&detached, &mut branch_keys);
    assert_eq!(branch_keys, vec![1, 3, 4]);
}

#[test]
fn deleting_an_absent_key_returns_empty_and_changes_nothing() {
    let mut t = build(&[5, 3, 8]);
    let before = build(&[5, 3, 8]);
    let d = t.del(42);
    assert!(matches!(d, Tree::Empty));
    assert!(same_shape(&t, &before));
}

#[test]
fn deleting_the_root_empties_the_tree() {
    let mut t = build(&[5, 3, 8]);
    let d = t.del(5);
    assert!(matches!(t, Tree::Empty));
    let mut branch_keys = Vec::new();
    inorder(&d, &mut branch_keys);
    assert_eq!(branch_keys, vec![3, 5, 8]);
}

#[test]
fn rotations_preserve_the_inorder_key_sequence() {
    let before = build(&[5, 3, 8, 1, 4, 7, 9]);
    let mut expected = Vec::new();
    inorder(&before, &mut expected);

    let mut a = build(&[5, 3, 8, 1, 4, 7, 9]);
    a.rot_lsingle();
    let mut got = Vec::new();
    inorder(&a, &mut got);
    assert_eq!(got, expected);
    assert_eq!(key_of(&a), 8);

    let mut b = build(&[5, 3, 8, 1, 4, 7, 9]);
    b.rot_rsingle();
    got.clear();
    inorder(&b, &mut got);
    assert_eq!(got, expected);
    assert_eq!(key_of(&b), 3);

    let mut c = build(&[5, 3, 8, 1, 4, 7, 9]);
    c.rot_ldouble();
    got.clear();
    inorder(&c, &mut got);
    assert_eq!(got, expected);
    assert_eq!(key_of(&c), 7);

    let mut d = build(&[5, 3, 8, 1, 4, 7, 9]);
    d.rot_rdouble();
    got.clear();
    inorder(&d, &mut got);
    assert_eq!(got, expected);
    assert_eq!(key_of(&d), 4);
}

#[test]
fn rotation_without_a_pivot_child_is_a_no_op() {
    let mut t = build(&[5, 3]);
    let before = build(&[5, 3]);
    t.rot_lsingle(); // no right child: unchanged
    assert!(same_shape(&t, &before));
    let mut u = build(&[5, 8]);
    let before_u = build(&[5, 8]);
    u.rot_rsingle(); // no left child: unchanged
    assert!(same_shape(&u, &before_u));
}

#[test]
fn level_metrics_report_the_longest_path() {
    let t = build(&[5, 3, 8, 1, 4, 7, 9]);
    assert_eq!(t.level_max(), 3);
    assert_eq!(t.level_min(), 3);
    let chainy = build(&[1, 2, 3, 4, 5]);
    assert_eq!(chainy.level_max(), 3);
    assert_eq!(chainy.level_min(), chainy.level_max());
}

#[test]
fn print_lists_nodes_in_preorder_with_indentation() {
    let t = build(&[10, 20, 30]);
    assert_eq!(t.print(), "20: 20\n    10: 10\n    30: 30\n");
    let mut u: Tree<i64> = Tree::Empty;
    u.add(7, 7);
    assert_eq!(u.print(), "7: 7\n");
    let mut v: Tree<i64> = Tree::Empty;
    v.add(-3, 25);
    v.add(4, -8);
    assert_eq!(v.print(), "-3: 25\n    4: -8\n");
}

#[test]
fn values_other_than_keys_round_trip() {
    let mut t: Tree<&str> = Tree::Empty;
    t.add(2, "two");
    t.add(1, "one");
    t.add(3, "three");
    assert_eq!(*t.get(1).unwrap(), "one");
    assert_eq!(*t.get(2).unwrap(), "two");
    assert_eq!(*t.get(3).unwrap(), "three");
    assert!(t.get(4).is_none());
}

#[test]
fn round_trip_survives_unrelated_deletion() {
    let mut t = build(&[5, 3, 8, 7, 9, 1, 4]);
    t.del(3); // takes 1 and 4 with it
    assert_eq!(*t.get(5).unwrap(), 5);
    assert_eq!(*t.get(7).unwrap(), 7);
    assert_eq!(*t.get(8).unwrap(), 8);
    assert_eq!(*t.get(9).unwrap(), 9);
}

#[test]
fn mixed_workload_keeps_order_and_balance() {
    // Deterministic pseudo-random keys.
    let mut state: u64 = 0x2545F4914F6CDD1D;
    let mut next = move || {
        state ^= state << 13;
        state ^= state >> 7;
        state ^= state << 17;
        (state % 2001) as i64 - 1000
    };
    let mut t: Tree<i64> = Tree::Empty;
    let mut inserted = Vec::new();
    for _ in 0..300 {
        let k = next();
        t.add(k, k * 3);
        inserted.push(k);
        assert!(well_balanced(&t));
    }
    let mut seen = Vec::new();
    inorder(&t, &mut seen);
    for w in seen.windows(2) {
        assert!(w[0] < w[1]);
    }
    for &k in &inserted {
        assert_eq!(*t.get(k).unwrap(), k * 3);
    }
}
