use wgpu_nnd::render::i32_dec;
use wgpu_nnd::render::u32_dec;
use wgpu_nnd::render::walk;
use wgpu_nnd::Fault;

#[test]
fn decimal_rendering_matches_formatting() {
    assert_eq!(u32_dec(0), "0");
    assert_eq!(u32_dec(7), "7");
    assert_eq!(u32_dec(12345), "12345");
    assert_eq!(u32_dec(4294967295), "4294967295");
    assert_eq!(i32_dec(-1), "-1");
    assert_eq!(i32_dec(-2147483648), "-2147483648");
    assert_eq!(i32_dec(42), "42");
}

#[test]
fn a_two_node_tree_renders_one_line_per_node() {
    // Root slot 0 with a right child in slot 1; neighbors 10 and 20,
    // shown modulo the 6 points.
    let avl = [2, -1, 1, -1, 1, -1, -1, 0];
    let knn = [10, 20];
    let s = walk(&knn, &avl, 6, 4, 0).unwrap();
    assert_eq!(s, "\u{252C}(0^-1h2) 4\n\u{2514}\u{2500}(1^0h1) 2\n");
}

#[test]
fn a_single_node_tree_renders_a_leaf_line() {
    let avl = [1, -1, -1, -1];
    let knn = [3];
    let s = walk(&knn, &avl, 6, 4, 0).unwrap();
    assert_eq!(s, "\u{2500}(0^-1h1) 3\n");
}

#[test]
fn an_empty_tree_renders_nothing() {
    let avl = [-1, -1, -1, -1];
    let knn = [-1];
    assert_eq!(walk(&knn, &avl, 6, 4, -1).unwrap(), "");
}

#[test]
fn a_three_node_tree_draws_both_branches() {
    let avl = [1, -1, -1, 1, 2, 0, 2, -1, 1, -1, -1, 1];
    let knn = [10, 20, 30];
    let s = walk(&knn, &avl, 6, 4, 1).unwrap();
    assert_eq!(
        s,
        "\u{252C}(1^-1h2) 2\n\u{251C}\u{2500}(0^1h1) 4\n\u{2514}\u{2500}(2^1h1) 0\n"
    );
}

#[test]
fn negative_neighbors_keep_their_sign_modulo_points() {
    let avl = [1, -1, -1, -1];
    let knn = [-7];
    let s = walk(&knn, &avl, 6, 4, 0).unwrap();
    assert_eq!(s, "\u{2500}(0^-1h1) -1\n");
}

#[test]
fn a_corrupt_tree_aborts_the_rendering() {
    // Slot 0 names itself as its right child.
    let avl = [2, -1, 0, -1];
    let knn = [10];
    assert!(matches!(walk(&knn, &avl, 6, 4, 0), Err(Fault::LoopDetected)));
}
