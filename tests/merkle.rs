use merkle_tree::{MerkleError, MerkleTree};

fn join(a: &String, b: &String) -> Result<String, String> {
    Ok(format!("({},{})", a, b))
}

fn dash(a: &String, b: &String) -> Result<String, String> {
    Ok(format!("{}-{}", a, b))
}

fn refuse_bad(a: &String, b: &String) -> Result<String, String> {
    if a.contains("bad") || b.contains("bad") {
        Err(format!("cannot hash {} and {}", a, b))
    } else {
        Ok(format!("({},{})", a, b))
    }
}

fn strings(items: &[&str]) -> Vec<String> {
    items.iter().map(|s| s.to_string()).collect()
}

fn numbered(n: usize) -> Vec<String> {
    (0..n).map(|i| format!("L{}", i)).collect()
}

fn build<F: Fn(&String, &String) -> Result<String, String>>(
    leaves: Vec<String>,
    f: F,
) -> MerkleTree<F> {
    match MerkleTree::new(leaves, f) {
        Ok(t) => t,
        Err(e) => panic!("build failed: {:?}", e),
    }
}

/// Folds a path into a leaf hash the way an independent verifier would.
fn fold(n: usize, index: usize, leaf: &str, path: &[String]) -> String {
    let mut h = leaf.to_string();
    let mut n = n;
    let mut idx = index;
    let mut used = 0;
    while n > 1 {
        if !(idx % 2 == 0 && idx + 1 >= n) {
            let s = &path[used];
            used += 1;
            h = if idx % 2 == 0 {
                join(&h, s).unwrap()
            } else {
                join(s, &h).unwrap()
            };
        }
        idx /= 2;
        n = (n + 1) / 2;
    }
    assert_eq!(used, path.len());
    h
}

#[test]
fn build_is_deterministic() {
    let a = build(numbered(7), join);
    let b = build(numbered(7), join);
    assert_eq!(a.root(), b.root());
    for i in 0..7 {
        assert_eq!(a.merkle_path(i), b.merkle_path(i));
    }
}

#[test]
fn four_leaves_pair_up() {
    let t = build(strings(&["a", "b", "c", "d"]), join);
    assert_eq!(t.root(), "((a,b),(c,d))");
    assert_eq!(t.merkle_path(0), Ok(strings(&["b", "(c,d)"])));
    assert_eq!(t.merkle_path(3), Ok(strings(&["c", "(a,b)"])));
}

#[test]
fn four_leaves_with_dash() {
    let t = build(strings(&["1234", "2345", "7545", "4564"]), dash);
    assert_eq!(t.root(), "1234-2345-7545-4564");
    assert_eq!(t.merkle_path(0), Ok(strings(&["2345", "7545-4564"])));
}

#[test]
fn odd_node_is_carried() {
    let t = build(strings(&["a", "b", "c"]), join);
    assert_eq!(t.root(), "((a,b),c)");
    // Leaf 2 has no sibling in layer 0; its sibling in layer 1 is (a,b).
    assert_eq!(t.merkle_path(2), Ok(strings(&["(a,b)"])));
    assert_eq!(t.merkle_path(0), Ok(strings(&["b", "c"])));
}

#[test]
fn five_leaves_carry_twice() {
    let t = build(strings(&["a", "b", "c", "d", "e"]), join);
    assert_eq!(t.root(), "(((a,b),(c,d)),e)");
    assert_eq!(t.merkle_path(4), Ok(strings(&["((a,b),(c,d))"])));
}

#[test]
fn single_leaf() {
    let t = build(strings(&["a"]), join);
    assert_eq!(t.root(), "a");
    assert_eq!(t.merkle_path(0), Ok(Vec::new()));
}

#[test]
fn paths_fold_to_root() {
    for n in 1..12 {
        let leaves = numbered(n);
        let t = build(leaves.clone(), join);
        for i in 0..n {
            let path = t.merkle_path(i).unwrap();
            assert_eq!(&fold(n, i, &leaves[i], &path), t.root());
        }
    }
}

#[test]
fn update_leaves_other_paths_alone() {
    let mut t = build(numbered(8), join);
    let before: Vec<Vec<String>> = (0..8).map(|j| t.merkle_path(j).unwrap()).collect();
    t.update_leaf(0, "new".to_string()).unwrap();
    // Leaves 4..8 share only the root with leaf 0: all but the top entry of
    // their paths (the subtree holding leaf 0) stay as they were.
    for j in 4..8 {
        let after = t.merkle_path(j).unwrap();
        assert_eq!(after[..2], before[j][..2]);
        assert_ne!(after[2], before[j][2]);
    }
    // Leaf 2 shares the subtree of leaves 0..4 with leaf 0, but not its pair.
    let after = t.merkle_path(2).unwrap();
    assert_eq!(after[0], before[2][0]);
    assert_ne!(after[1], before[2][1]);
    assert_eq!(after[2], before[2][2]);
}

#[test]
fn update_matches_rebuild() {
    for n in 1..12 {
        for i in 0..n {
            let mut t = build(numbered(n), join);
            t.update_leaf(i, "X".to_string()).unwrap();
            let mut leaves = numbered(n);
            leaves[i] = "X".to_string();
            let fresh = build(leaves, join);
            assert_eq!(t.root(), fresh.root());
            for j in 0..n {
                assert_eq!(t.merkle_path(j), fresh.merkle_path(j));
            }
        }
    }
}

#[test]
fn update_of_carried_leaf_is_not_self_combined() {
    let mut t = build(strings(&["a", "b", "c"]), join);
    t.update_leaf(2, "z".to_string()).unwrap();
    assert_eq!(t.root(), "((a,b),z)");
}

#[test]
fn update_changes_root() {
    let mut t = build(strings(&["1234", "2345", "7545", "4564"]), dash);
    t.update_leaf(0, "63453".to_string()).unwrap();
    assert_eq!(t.root(), "63453-2345-7545-4564");
}

#[test]
fn path_index_out_of_range() {
    let t = build(numbered(4), join);
    assert_eq!(t.merkle_path(4), Err(MerkleError::IndexOutOfRange(4)));
    assert_eq!(
        t.merkle_path(usize::MAX),
        Err(MerkleError::IndexOutOfRange(usize::MAX))
    );
}

#[test]
fn update_index_out_of_range() {
    let mut t = build(numbered(5), join);
    let root = t.root().clone();
    assert_eq!(
        t.update_leaf(5, "x".to_string()),
        Err(MerkleError::IndexOutOfRange(5))
    );
    assert_eq!(
        t.update_leaf(usize::MAX, "x".to_string()),
        Err(MerkleError::IndexOutOfRange(usize::MAX))
    );
    assert_eq!(t.root(), &root);
}

#[test]
fn empty_input_is_rejected() {
    match MerkleTree::new(Vec::new(), join) {
        Err(e) => assert_eq!(e, MerkleError::InvalidInput),
        Ok(_) => panic!("an empty tree was built"),
    }
}

#[test]
fn hash_error_in_build() {
    match MerkleTree::new(strings(&["a", "bad", "c"]), refuse_bad) {
        Err(e) => assert_eq!(e, MerkleError::HashError("cannot hash a and bad".to_string())),
        Ok(_) => panic!("the failing hash was not reported"),
    }
}

#[test]
fn hash_error_in_update_leaves_tree_unchanged() {
    let mut t = build(strings(&["a", "b", "c", "d", "e"]), refuse_bad);
    let root = t.root().clone();
    let paths: Vec<_> = (0..5).map(|j| t.merkle_path(j)).collect();
    assert_eq!(
        t.update_leaf(1, "bad".to_string()),
        Err(MerkleError::HashError("cannot hash a and bad".to_string()))
    );
    assert_eq!(t.root(), &root);
    for j in 0..5 {
        assert_eq!(t.merkle_path(j), paths[j]);
    }
}

#[test]
fn closure_as_combine() {
    let salt = "s".to_string();
    let t = build(strings(&["a", "b"]), |a: &String, b: &String| {
        Ok(format!("{}{}{}", a, salt, b))
    });
    assert_eq!(t.root(), "asb");
}

fn always_fails(_a: &String, _b: &String) -> Result<String, String> {
    Err("no hash here".to_string())
}

#[test]
fn single_leaf_needs_no_combine() {
    let mut t = build(strings(&["a"]), always_fails);
    assert_eq!(t.root(), "a");
    assert_eq!(t.update_leaf(0, "b".to_string()), Ok(()));
    assert_eq!(t.root(), "b");
    assert_eq!(t.merkle_path(0), Ok(Vec::new()));
}

#[test]
fn failing_combine_error_is_passed_on() {
    match MerkleTree::new(strings(&["a", "b"]), always_fails) {
        Err(e) => assert_eq!(e, MerkleError::HashError("no hash here".to_string())),
        Ok(_) => panic!("the failing hash was not reported"),
    }
}
