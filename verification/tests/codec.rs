use wgpu_nnd::codec::decode_row;
use wgpu_nnd::Fault;

// A two-node row: slot 0 is the root (height 2), slot 1 its right child.
fn two_node_row() -> Vec<i32> {
    vec![2, -1, 1, -1, 1, -1, -1, 0]
}

#[test]
fn a_sound_row_decodes_in_order() {
    let avl = two_node_row();
    let knn = [10, 20];
    assert_eq!(decode_row(&avl, &knn, 2, 0), Ok(vec![10, 20]));
}

#[test]
fn an_empty_row_decodes_to_nothing() {
    let avl = [-1, -1, -1, -1, -1, -1, -1, -1];
    let knn = [-1, -1];
    assert_eq!(decode_row(&avl, &knn, 2, -1), Ok(vec![]));
}

#[test]
fn a_root_outside_the_slot_range_is_corruption() {
    let avl = two_node_row();
    let knn = [10, 20];
    assert_eq!(decode_row(&avl, &knn, 2, 5), Err(Fault::OutOfRange));
}

#[test]
fn a_slot_reached_twice_is_corruption() {
    // Slot 0's left and right both point at slot 1.
    let avl = [2, 1, 1, -1, 1, -1, -1, 0];
    let knn = [10, 20];
    assert_eq!(decode_row(&avl, &knn, 2, 0), Err(Fault::LoopDetected));
}

#[test]
fn a_wrong_parent_column_is_corruption() {
    let mut avl = two_node_row();
    avl[4 + 3] = 1; // child claims itself as parent
    let knn = [10, 20];
    assert_eq!(decode_row(&avl, &knn, 2, 0), Err(Fault::Inconsistent));
}

#[test]
fn a_wrong_height_column_is_corruption() {
    let mut avl = two_node_row();
    avl[0] = 3;
    let knn = [10, 20];
    assert_eq!(decode_row(&avl, &knn, 2, 0), Err(Fault::Inconsistent));
}

#[test]
fn an_unbalanced_chain_is_corruption() {
    // 0 -> right 1 -> right 2, heights 3, 2, 1: the root's children
    // differ in height by two.
    let avl = [3, -1, 1, -1, 2, -1, 2, 0, 1, -1, -1, 1];
    let knn = [10, 20, 30];
    assert_eq!(decode_row(&avl, &knn, 3, 0), Err(Fault::Unbalanced));
}

#[test]
fn a_live_slot_unreachable_from_the_root_is_corruption() {
    // Root is empty but slot 0 still holds tree fields.
    let avl = [1, -1, -1, -1, -1, -1, -1, -1];
    let knn = [10, 20];
    assert_eq!(decode_row(&avl, &knn, 2, -1), Err(Fault::Inconsistent));
}

#[test]
fn a_neighbor_retained_twice_is_corruption() {
    let avl = two_node_row();
    let knn = [10, 10];
    assert_eq!(decode_row(&avl, &knn, 2, 0), Err(Fault::DuplicateNeighbor));
}

#[test]
fn a_three_node_balanced_row_decodes_left_to_right() {
    // Slot 1 is the root; slots 0 and 2 its children.
    let avl = [1, -1, -1, 1, 2, 0, 2, -1, 1, -1, -1, 1];
    let knn = [10, 20, 30];
    assert_eq!(decode_row(&avl, &knn, 3, 1), Ok(vec![10, 20, 30]));
}

#[test]
fn encoding_a_full_candidate_set_round_trips_through_decode() {
    let mut t = wgpu_nnd::tree::CandidateTree::empty(4);
    t.try_insert(11, 50);
    t.try_insert(12, 10);
    t.try_insert(13, 30);
    t.try_insert(14, 20);
    t.try_insert(15, 25); // evicts the candidate at distance 50
    let (avl, knn, root) = wgpu_nnd::codec::encode_row(&t);
    assert_eq!(avl.len(), 16);
    assert_eq!(knn.len(), 4);
    let decoded = decode_row(&avl, &knn, 4, root).unwrap();
    let expected: Vec<i32> = t.candidates().iter().map(|c| c.neighbor).collect();
    assert_eq!(decoded, expected);
    assert_eq!(decoded, vec![12, 14, 15, 13]);
}

#[test]
fn encoding_a_partly_filled_set_pads_free_slots_with_sentinels() {
    let mut t = wgpu_nnd::tree::CandidateTree::empty(4);
    t.try_insert(7, 2);
    t.try_insert(8, 1);
    let (avl, knn, root) = wgpu_nnd::codec::encode_row(&t);
    let decoded = decode_row(&avl, &knn, 4, root).unwrap();
    assert_eq!(decoded, vec![8, 7]);
    // Slots the tree does not use stay sentinel-filled.
    assert!(avl[8..].iter().all(|v| *v == -1));
    assert!(knn[2..].iter().all(|v| *v == -1));
}

#[test]
fn encoding_an_empty_set_gives_an_empty_root() {
    let t = wgpu_nnd::tree::CandidateTree::empty(3);
    let (avl, knn, root) = wgpu_nnd::codec::encode_row(&t);
    assert_eq!(root, -1);
    assert!(avl.iter().all(|v| *v == -1));
    assert!(knn.iter().all(|v| *v == -1));
    assert_eq!(decode_row(&avl, &knn, 3, root), Ok(vec![]));
}
