use wgpu_nnd::tree::Candidate;
use wgpu_nnd::tree::CandidateTree;

fn dists(t: &CandidateTree) -> Vec<f32> {
    t.candidates().iter().map(|c| f32::from_bits(c.dist)).collect()
}

#[test]
fn empty_tree_has_no_candidates() {
    let t = CandidateTree::empty(2);
    assert_eq!(t.len(), 0);
    assert_eq!(t.capacity(), 2);
    assert!(t.candidates().is_empty());
    assert!(t.max().is_none());
}

#[test]
fn three_inserts_at_capacity_two_evict_the_worst() {
    // Point 0 receives candidates at distances 5.0, 1.0, 3.0 in that
    // order; with k = 2 the 5.0 candidate is evicted.
    let mut t = CandidateTree::empty(2);
    t.try_insert(7, 5.0f32.to_bits());
    t.try_insert(8, 1.0f32.to_bits());
    t.try_insert(9, 3.0f32.to_bits());
    assert_eq!(t.len(), 2);
    assert_eq!(dists(&t), vec![1.0, 3.0]);
    let got = t.candidates();
    assert_eq!(got[0].neighbor, 8);
    assert_eq!(got[1].neighbor, 9);
}

#[test]
fn insert_no_worse_than_max_is_a_no_op() {
    let mut t = CandidateTree::empty(2);
    t.try_insert(1, 10);
    t.try_insert(2, 20);
    t.try_insert(3, 20);
    t.try_insert(4, 25);
    assert_eq!(
        t.candidates(),
        vec![Candidate { dist: 10, neighbor: 1 }, Candidate { dist: 20, neighbor: 2 }]
    );
}

#[test]
fn tree_never_exceeds_capacity_and_stays_sorted() {
    let mut t = CandidateTree::empty(3);
    let ds: [u32; 8] = [44, 3, 17, 3, 99, 1, 56, 2];
    for (n, d) in ds.iter().enumerate() {
        t.try_insert(n as i32, *d);
        assert!(t.len() <= 3);
        let got = t.candidates();
        for w in got.windows(2) {
            assert!(w[0].dist <= w[1].dist);
        }
    }
    let final_dists: Vec<u32> = t.candidates().iter().map(|c| c.dist).collect();
    assert_eq!(final_dists, vec![1, 2, 3]);
}

#[test]
fn max_and_extract_max_return_the_worst() {
    let mut t = CandidateTree::empty(4);
    t.try_insert(1, 30);
    t.try_insert(2, 10);
    t.try_insert(3, 20);
    assert_eq!(t.max(), Some(Candidate { dist: 30, neighbor: 1 }));
    assert_eq!(t.extract_max(), Some(Candidate { dist: 30, neighbor: 1 }));
    assert_eq!(t.extract_max(), Some(Candidate { dist: 20, neighbor: 3 }));
    assert_eq!(t.extract_max(), Some(Candidate { dist: 10, neighbor: 2 }));
    assert_eq!(t.extract_max(), None);
}

#[test]
fn equal_distances_are_both_retained_below_capacity() {
    let mut t = CandidateTree::empty(3);
    t.try_insert(5, 7);
    t.try_insert(6, 7);
    assert_eq!(t.len(), 2);
    let got = t.candidates();
    assert_eq!(got[0].dist, 7);
    assert_eq!(got[1].dist, 7);
}

#[test]
fn ascending_and_descending_insertions_stay_sorted() {
    let mut up = CandidateTree::empty(8);
    let mut down = CandidateTree::empty(8);
    for i in 0..8u32 {
        up.try_insert(i as i32, i);
        down.try_insert(i as i32, 7 - i);
    }
    let u: Vec<u32> = up.candidates().iter().map(|c| c.dist).collect();
    let d: Vec<u32> = down.candidates().iter().map(|c| c.dist).collect();
    assert_eq!(u, (0..8).collect::<Vec<u32>>());
    assert_eq!(d, (0..8).collect::<Vec<u32>>());
}
