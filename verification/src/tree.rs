//! Per-point candidate set: a bounded, height-balanced binary search tree
//! keyed by distance, holding the current best `k` neighbor candidates.
use vstd::prelude::*;
use vstd::seq_lib::group_to_multiset_ensures;
use vstd::seq_lib::lemma_multiset_commutative;

verus! {

/// One retained neighbor candidate: the comparison key (distance, as an
/// order-preserving unsigned encoding) and the neighbor index it carries.
#[derive(Clone, Copy, Debug, PartialEq, Eq, Structural)]
pub struct Candidate {
    pub dist: u32,
    pub neighbor: i32,
}

/// Height-balanced search tree over candidates, ordered by `dist`.
pub enum AvlTree {
    Leaf,
    Node {
        dist: u32,
        neighbor: i32,
        height: usize,
        left: Box<AvlTree>,
        right: Box<AvlTree>,
    },
}

pub open spec fn nat_max(a: nat, b: nat) -> nat {
    if a >= b {
        a
    } else {
        b
    }
}

/// Mathematical height of a tree (leaves have height 0).
pub open spec fn height_of(t: AvlTree) -> nat
    decreases t,
{
    match t {
        AvlTree::Leaf => 0,
        AvlTree::Node { left, right, .. } => 1 + nat_max(height_of(*left), height_of(*right)),
    }
}

/// In-order candidate sequence of a tree.
pub open spec fn inorder(t: AvlTree) -> Seq<Candidate>
    decreases t,
{
    match t {
        AvlTree::Leaf => Seq::empty(),
        AvlTree::Node { dist, neighbor, left, right, .. } => inorder(*left) + seq![
            Candidate { dist, neighbor },
        ] + inorder(*right),
    }
}

pub open spec fn keys_le(s: Seq<Candidate>, bound: u32) -> bool {
    forall|i: int| 0 <= i < s.len() ==> (#[trigger] s[i]).dist <= bound
}

pub open spec fn keys_ge(s: Seq<Candidate>, bound: u32) -> bool {
    forall|i: int| 0 <= i < s.len() ==> (#[trigger] s[i]).dist >= bound
}

/// Every node's children differ in height by at most one.
pub open spec fn balanced(t: AvlTree) -> bool
    decreases t,
{
    match t {
        AvlTree::Leaf => true,
        AvlTree::Node { left, right, .. } => {
            &&& balanced(*left)
            &&& balanced(*right)
            &&& height_of(*left) <= height_of(*right) + 1
            &&& height_of(*right) <= height_of(*left) + 1
        },
    }
}

/// Well-formed tree: search order by distance, cached heights correct,
/// and balanced at every node.
pub open spec fn wf(t: AvlTree) -> bool
    decreases t,
{
    match t {
        AvlTree::Leaf => true,
        AvlTree::Node { dist, height, left, right, .. } => {
            &&& wf(*left)
            &&& wf(*right)
            &&& keys_le(inorder(*left), dist)
            &&& keys_ge(inorder(*right), dist)
            &&& height == height_of(t)
            &&& height_of(*left) <= height_of(*right) + 1
            &&& height_of(*right) <= height_of(*left) + 1
        },
    }
}

pub open spec fn sorted_by_dist(s: Seq<Candidate>) -> bool {
    forall|i: int, j: int| 0 <= i <= j < s.len() ==> (#[trigger] s[i]).dist <= (#[trigger] s[j]).dist
}

proof fn lemma_wf_implies_balanced(t: AvlTree)
    requires
        wf(t),
    ensures
        balanced(t),
    decreases t,
{
    match t {
        AvlTree::Leaf => {},
        AvlTree::Node { left, right, .. } => {
            lemma_wf_implies_balanced(*left);
            lemma_wf_implies_balanced(*right);
        },
    }
}

/// A tree's height never exceeds the number of candidates it holds.
pub(crate) proof fn lemma_height_le_len(t: AvlTree)
    ensures
        height_of(t) <= inorder(t).len(),
    decreases t,
{
    match t {
        AvlTree::Leaf => {},
        AvlTree::Node { left, right, .. } => {
            lemma_height_le_len(*left);
            lemma_height_le_len(*right);
        },
    }
}

/// In a well-formed tree the in-order sequence is sorted by distance.
proof fn lemma_wf_sorted(t: AvlTree)
    requires
        wf(t),
    ensures
        sorted_by_dist(inorder(t)),
    decreases t,
{
    match t {
        AvlTree::Leaf => {},
        AvlTree::Node { dist, neighbor, left, right, .. } => {
            lemma_wf_sorted(*left);
            lemma_wf_sorted(*right);
            let sl = inorder(*left);
            let sr = inorder(*right);
            let c = Candidate { dist, neighbor };
            let s = inorder(t);
            assert forall|i: int, j: int| 0 <= i <= j < s.len() implies (#[trigger] s[i]).dist
                <= (#[trigger] s[j]).dist by {
                let la = sl.len() as int;
                if i < la {
                    assert(s[i] == sl[i]);
                }
                if j < la {
                    assert(s[j] == sl[j]);
                }
                if i == la {
                    assert(s[i] == c);
                }
                if j == la {
                    assert(s[j] == c);
                }
                if i > la {
                    assert(s[i] == sr[i - la - 1]);
                }
                if j > la {
                    assert(s[j] == sr[j - la - 1]);
                }
            }
        },
    }
}

/// Multiset of a three-way concatenation, for reshuffling proofs.
proof fn lemma_concat3_multiset(a: Seq<Candidate>, c: Candidate, b: Seq<Candidate>)
    ensures
        (a + seq![c] + b).to_multiset() == a.to_multiset().add(b.to_multiset()).insert(c),
{
    broadcast use group_to_multiset_ensures;

    lemma_multiset_commutative(a + seq![c], b);
    lemma_multiset_commutative(a, seq![c]);
    assert(seq![c] =~= Seq::empty().push(c));
    assert(seq![c].to_multiset() == Seq::<Candidate>::empty().to_multiset().insert(c));
    assert((a + seq![c] + b).to_multiset() =~= a.to_multiset().add(b.to_multiset()).insert(c));
}

/// Distance bounds distribute over a three-way concatenation.
proof fn lemma_keys_le_concat3(a: Seq<Candidate>, c: Candidate, b: Seq<Candidate>, bound: u32)
    ensures
        keys_le(a + seq![c] + b, bound) <==> (keys_le(a, bound) && c.dist <= bound && keys_le(
            b,
            bound,
        )),
{
    let s = a + seq![c] + b;
    let la = a.len() as int;
    assert(s[la] == c);
    assert(forall|i: int| 0 <= i < a.len() ==> s[i] == #[trigger] a[i]);
    assert(forall|i: int| 0 <= i < b.len() ==> s[la + 1 + i] == #[trigger] b[i]);
    if keys_le(a, bound) && c.dist <= bound && keys_le(b, bound) {
        assert forall|i: int| 0 <= i < s.len() implies (#[trigger] s[i]).dist <= bound by {
            if i < la {
                assert(s[i] == a[i]);
            } else if i > la {
                assert(s[i] == b[i - la - 1]);
            }
        }
    }
}

proof fn lemma_keys_ge_concat3(a: Seq<Candidate>, c: Candidate, b: Seq<Candidate>, bound: u32)
    ensures
        keys_ge(a + seq![c] + b, bound) <==> (keys_ge(a, bound) && c.dist >= bound && keys_ge(
            b,
            bound,
        )),
{
    let s = a + seq![c] + b;
    let la = a.len() as int;
    assert(s[la] == c);
    assert(forall|i: int| 0 <= i < a.len() ==> s[i] == #[trigger] a[i]);
    assert(forall|i: int| 0 <= i < b.len() ==> s[la + 1 + i] == #[trigger] b[i]);
    if keys_ge(a, bound) && c.dist >= bound && keys_ge(b, bound) {
        assert forall|i: int| 0 <= i < s.len() implies (#[trigger] s[i]).dist >= bound by {
            if i < la {
                assert(s[i] == a[i]);
            } else if i > la {
                assert(s[i] == b[i - la - 1]);
            }
        }
    }
}

/// Cached height of a well-formed tree.
fn height_x(t: &AvlTree) -> (r: usize)
    requires
        wf(*t),
    ensures
        r == height_of(*t),
{
    match t {
        AvlTree::Leaf => 0,
        AvlTree::Node { height, .. } => *height,
    }
}

/// Join two trees whose heights differ by at most one under a fresh node.
fn join_balanced(d: u32, nb: i32, l: AvlTree, r: AvlTree) -> (res: AvlTree)
    requires
        wf(l),
        wf(r),
        keys_le(inorder(l), d),
        keys_ge(inorder(r), d),
        height_of(l) <= height_of(r) + 1,
        height_of(r) <= height_of(l) + 1,
        inorder(l).len() + inorder(r).len() + 1 < usize::MAX,
    ensures
        wf(res),
        inorder(res) == inorder(l) + seq![Candidate { dist: d, neighbor: nb }] + inorder(r),
        height_of(res) == 1 + nat_max(height_of(l), height_of(r)),
{
    proof {
        lemma_height_le_len(l);
        lemma_height_le_len(r);
    }
    let hl = height_x(&l);
    let hr = height_x(&r);
    let h = 1 + if hl >= hr {
        hl
    } else {
        hr
    };
    let res = AvlTree::Node {
        dist: d,
        neighbor: nb,
        height: h,
        left: Box::new(l),
        right: Box::new(r),
    };
    proof {
        assert(wf(res));
    }
    res
}

/// Restore balance when the left part is exactly two levels taller,
/// with a single or double right rotation.
fn fix_left_heavy(d: u32, nb: i32, l: AvlTree, r: AvlTree) -> (res: AvlTree)
    requires
        wf(l),
        wf(r),
        keys_le(inorder(l), d),
        keys_ge(inorder(r), d),
        height_of(l) == height_of(r) + 2,
        inorder(l).len() + inorder(r).len() + 1 < usize::MAX,
    ensures
        wf(res),
        inorder(res) == inorder(l) + seq![Candidate { dist: d, neighbor: nb }] + inorder(r),
        height_of(l) <= height_of(res) <= height_of(l) + 1,
{
    let ghost c = Candidate { dist: d, neighbor: nb };
    let ghost gl = l;
    let ghost gr = r;
    match l {
        AvlTree::Node { dist: ld, neighbor: ln, height: _lh, left: ll, right: lr } => {
            let ghost lc = Candidate { dist: ld, neighbor: ln };
            let ghost gll = *ll;
            let ghost glr = *lr;
            proof {
                assert(inorder(gl) == inorder(gll) + seq![lc] + inorder(glr));
                lemma_keys_le_concat3(inorder(gll), lc, inorder(glr), d);
            }
            let hll = height_x(&ll);
            let hlr = height_x(&lr);
            if hll >= hlr {
                // Single right rotation.
                let inner = join_balanced(d, nb, *lr, r);
                proof {
                    assert(keys_ge(inorder(inner), ld)) by {
                        lemma_keys_ge_concat3(inorder(glr), c, inorder(gr), ld);
                    }
                }
                let res = join_balanced(ld, ln, *ll, inner);
                proof {
                    assert(inorder(res) =~= inorder(gl) + seq![c] + inorder(gr));
                }
                res
            } else {
                // Double rotation: rotate the left child left, then right.
                match *lr {
                    AvlTree::Node { dist: md, neighbor: mn, height: _mh, left: ml, right: mr } => {
                        let ghost mc = Candidate { dist: md, neighbor: mn };
                        let ghost gml = *ml;
                        let ghost gmr = *mr;
                        proof {
                            assert(wf(glr));
                            assert(wf(gml) && wf(gmr) && keys_le(inorder(gml), md) && keys_ge(
                                inorder(gmr),
                                md,
                            ));
                            assert(inorder(glr) == inorder(gml) + seq![mc] + inorder(gmr));
                            lemma_keys_le_concat3(inorder(gml), mc, inorder(gmr), d);
                            lemma_keys_ge_concat3(inorder(gml), mc, inorder(gmr), ld);
                        }
                        let a = join_balanced(ld, ln, *ll, *ml);
                        let b = join_balanced(d, nb, *mr, r);
                        proof {
                            assert(keys_le(inorder(a), md)) by {
                                lemma_keys_le_concat3(inorder(gll), lc, inorder(gml), md);
                            }
                            assert(keys_ge(inorder(b), md)) by {
                                lemma_keys_ge_concat3(inorder(gmr), c, inorder(gr), md);
                            }
                        }
                        let res = join_balanced(md, mn, a, b);
                        proof {
                            assert(inorder(res) =~= inorder(gl) + seq![c] + inorder(gr));
                        }
                        res
                    },
                    AvlTree::Leaf => {
                        proof {
                            assert(false);
                        }
                        AvlTree::Leaf
                    },
                }
            }
        },
        AvlTree::Leaf => {
            proof {
                assert(false);
            }
            AvlTree::Leaf
        },
    }
}

/// Restore balance when the right part is exactly two levels taller,
/// with a single or double left rotation.
fn fix_right_heavy(d: u32, nb: i32, l: AvlTree, r: AvlTree) -> (res: AvlTree)
    requires
        wf(l),
        wf(r),
        keys_le(inorder(l), d),
        keys_ge(inorder(r), d),
        height_of(r) == height_of(l) + 2,
        inorder(l).len() + inorder(r).len() + 1 < usize::MAX,
    ensures
        wf(res),
        inorder(res) == inorder(l) + seq![Candidate { dist: d, neighbor: nb }] + inorder(r),
        height_of(r) <= height_of(res) <= height_of(r) + 1,
{
    let ghost c = Candidate { dist: d, neighbor: nb };
    let ghost gl = l;
    let ghost gr = r;
    match r {
        AvlTree::Node { dist: rd, neighbor: rn, height: _rh, left: rl, right: rr } => {
            let ghost rc = Candidate { dist: rd, neighbor: rn };
            let ghost grl = *rl;
            let ghost grr = *rr;
            proof {
                assert(inorder(gr) == inorder(grl) + seq![rc] + inorder(grr));
                lemma_keys_ge_concat3(inorder(grl), rc, inorder(grr), d);
            }
            let hrl = height_x(&rl);
            let hrr = height_x(&rr);
            if hrr >= hrl {
                // Single left rotation.
                let inner = join_balanced(d, nb, l, *rl);
                proof {
                    assert(keys_le(inorder(inner), rd)) by {
                        lemma_keys_le_concat3(inorder(gl), c, inorder(grl), rd);
                    }
                }
                let res = join_balanced(rd, rn, inner, *rr);
                proof {
                    assert(inorder(res) =~= inorder(gl) + seq![c] + inorder(gr));
                }
                res
            } else {
                // Double rotation: rotate the right child right, then left.
                match *rl {
                    AvlTree::Node { dist: md, neighbor: mn, height: _mh, left: ml, right: mr } => {
                        let ghost mc = Candidate { dist: md, neighbor: mn };
                        let ghost gml = *ml;
                        let ghost gmr = *mr;
                        proof {
                            assert(wf(grl));
                            assert(wf(gml) && wf(gmr) && keys_le(inorder(gml), md) && keys_ge(
                                inorder(gmr),
                                md,
                            ));
                            assert(inorder(grl) == inorder(gml) + seq![mc] + inorder(gmr));
                            lemma_keys_ge_concat3(inorder(gml), mc, inorder(gmr), d);
                            lemma_keys_le_concat3(inorder(gml), mc, inorder(gmr), rd);
                        }
                        let a = join_balanced(d, nb, l, *ml);
                        let b = join_balanced(rd, rn, *mr, *rr);
                        proof {
                            assert(keys_le(inorder(a), md)) by {
                                lemma_keys_le_concat3(inorder(gl), c, inorder(gml), md);
                            }
                            assert(keys_ge(inorder(b), md)) by {
                                lemma_keys_ge_concat3(inorder(gmr), rc, inorder(grr), md);
                            }
                        }
                        let res = join_balanced(md, mn, a, b);
                        proof {
                            assert(inorder(res) =~= inorder(gl) + seq![c] + inorder(gr));
                        }
                        res
                    },
                    AvlTree::Leaf => {
                        proof {
                            assert(false);
                        }
                        AvlTree::Leaf
                    },
                }
            }
        },
        AvlTree::Leaf => {
            proof {
                assert(false);
            }
            AvlTree::Leaf
        },
    }
}

/// Rebuild a node from parts whose heights may differ by up to two,
/// restoring balance with a rotation where needed.
fn rebalance(d: u32, nb: i32, l: AvlTree, r: AvlTree) -> (res: AvlTree)
    requires
        wf(l),
        wf(r),
        keys_le(inorder(l), d),
        keys_ge(inorder(r), d),
        height_of(l) <= height_of(r) + 2,
        height_of(r) <= height_of(l) + 2,
        inorder(l).len() + inorder(r).len() + 1 < usize::MAX,
    ensures
        wf(res),
        inorder(res) == inorder(l) + seq![Candidate { dist: d, neighbor: nb }] + inorder(r),
        nat_max(height_of(l), height_of(r)) <= height_of(res) <= 1 + nat_max(
            height_of(l),
            height_of(r),
        ),
        (height_of(l) <= height_of(r) + 1 && height_of(r) <= height_of(l) + 1) ==> height_of(res)
            == 1 + nat_max(height_of(l), height_of(r)),
{
    proof {
        lemma_height_le_len(l);
        lemma_height_le_len(r);
    }
    let hl = height_x(&l);
    let hr = height_x(&r);
    if hl > hr + 1 {
        fix_left_heavy(d, nb, l, r)
    } else if hr > hl + 1 {
        fix_right_heavy(d, nb, l, r)
    } else {
        join_balanced(d, nb, l, r)
    }
}

/// Membership distributes over a three-way concatenation.
proof fn lemma_contains_concat3(a: Seq<Candidate>, c: Candidate, b: Seq<Candidate>)
    ensures
        forall|x: Candidate|
            #[trigger] (a + seq![c] + b).contains(x) <==> (a.contains(x) || x == c || b.contains(
                x,
            )),
{
    let s = a + seq![c] + b;
    let la = a.len() as int;
    assert forall|x: Candidate| #[trigger] s.contains(x) implies (a.contains(x) || x == c
        || b.contains(x)) by {
        let i = choose|i: int| 0 <= i < s.len() && s[i] == x;
        if i < la {
            assert(a[i] == x);
        } else if i > la {
            assert(b[i - la - 1] == x);
        }
    }
    assert forall|x: Candidate| a.contains(x) || x == c || b.contains(x) implies #[trigger] s
        .contains(x) by {
        if a.contains(x) {
            let i = choose|i: int| 0 <= i < a.len() && a[i] == x;
            assert(s[i] == x);
        } else if x == c {
            assert(s[la] == x);
        } else {
            let i = choose|i: int| 0 <= i < b.len() && b[i] == x;
            assert(s[la + 1 + i] == x);
        }
    }
}

/// Insert a candidate, keeping the tree well formed and balanced.
/// The result holds exactly the old candidates plus the new one.
fn insert(t: AvlTree, d: u32, nb: i32) -> (res: AvlTree)
    requires
        wf(t),
        inorder(t).len() + 1 < usize::MAX,
    ensures
        wf(res),
        inorder(res).to_multiset() == inorder(t).to_multiset().insert(
            (Candidate { dist: d, neighbor: nb }),
        ),
        inorder(res).len() == inorder(t).len() + 1,
        forall|x: Candidate|
            #[trigger] inorder(res).contains(x) ==> inorder(t).contains(x) || x == (Candidate {
                dist: d,
                neighbor: nb,
            }),
        height_of(t) <= height_of(res) <= height_of(t) + 1,
    decreases t,
{
    broadcast use group_to_multiset_ensures;

    let ghost c = Candidate { dist: d, neighbor: nb };
    let ghost gt = t;
    match t {
        AvlTree::Leaf => {
            let res = AvlTree::Node {
                dist: d,
                neighbor: nb,
                height: 1,
                left: Box::new(AvlTree::Leaf),
                right: Box::new(AvlTree::Leaf),
            };
            proof {
                assert(wf(res));
                assert(inorder(res) =~= seq![c]);
                assert(inorder(res) =~= Seq::empty().push(c));
                assert(inorder(gt) =~= Seq::<Candidate>::empty());
            }
            res
        },
        AvlTree::Node { dist: nk, neighbor: nn, height: _nh, left, right } => {
            let ghost nc = Candidate { dist: nk, neighbor: nn };
            let ghost gl = *left;
            let ghost gr = *right;
            proof {
                assert(inorder(gt) == inorder(gl) + seq![nc] + inorder(gr));
                lemma_contains_concat3(inorder(gl), nc, inorder(gr));
            }
            if d < nk {
                let l2 = insert(*left, d, nb);
                let ghost gl2 = inorder(l2);
                proof {
                    assert(keys_le(gl2, nk)) by {
                        assert forall|i: int| 0 <= i < gl2.len() implies (#[trigger] gl2[i]).dist
                            <= nk by {
                            let x = gl2[i];
                            assert(gl2.contains(x));
                            if inorder(gl).contains(x) {
                                let j = choose|j: int|
                                    0 <= j < inorder(gl).len() && inorder(gl)[j] == x;
                                assert(inorder(gl)[j].dist <= nk);
                            }
                        }
                    }
                }
                let res = rebalance(nk, nn, l2, *right);
                proof {
                    lemma_contains_concat3(gl2, nc, inorder(gr));
                    lemma_concat3_multiset(gl2, nc, inorder(gr));
                    lemma_concat3_multiset(inorder(gl), nc, inorder(gr));
                    assert(inorder(res).to_multiset() =~= inorder(gt).to_multiset().insert(c));
                }
                res
            } else {
                let r2 = insert(*right, d, nb);
                let ghost gr2 = inorder(r2);
                proof {
                    assert(keys_ge(gr2, nk)) by {
                        assert forall|i: int| 0 <= i < gr2.len() implies (#[trigger] gr2[i]).dist
                            >= nk by {
                            let x = gr2[i];
                            assert(gr2.contains(x));
                            if inorder(gr).contains(x) {
                                let j = choose|j: int|
                                    0 <= j < inorder(gr).len() && inorder(gr)[j] == x;
                                assert(inorder(gr)[j].dist >= nk);
                            }
                        }
                    }
                }
                let res = rebalance(nk, nn, *left, r2);
                proof {
                    lemma_contains_concat3(inorder(gl), nc, gr2);
                    lemma_concat3_multiset(inorder(gl), nc, gr2);
                    lemma_concat3_multiset(inorder(gl), nc, inorder(gr));
                    assert(inorder(res).to_multiset() =~= inorder(gt).to_multiset().insert(c));
                }
                res
            }
        },
    }
}

/// Remove and return the maximum-distance candidate.
fn remove_max(t: AvlTree) -> (res: (AvlTree, Candidate))
    requires
        wf(t),
        1 <= inorder(t).len() < usize::MAX,
    ensures
        wf(res.0),
        inorder(res.0) == inorder(t).drop_last(),
        res.1 == inorder(t).last(),
        height_of(res.0) <= height_of(t) <= height_of(res.0) + 1,
    decreases t,
{
    let ghost gt = t;
    match t {
        AvlTree::Leaf => {
            proof {
                assert(false);
            }
            (AvlTree::Leaf, Candidate { dist: 0, neighbor: 0 })
        },
        AvlTree::Node { dist, neighbor, height: _h, left, right } => {
            let ghost nc = Candidate { dist, neighbor };
            let ghost gl = *left;
            let ghost gr = *right;
            proof {
                assert(inorder(gt) == inorder(gl) + seq![nc] + inorder(gr));
            }
            match *right {
                AvlTree::Leaf => {
                    proof {
                        assert(inorder(gr) =~= Seq::<Candidate>::empty());
                        assert(inorder(gt) =~= inorder(gl).push(nc));
                        assert(inorder(gt).drop_last() =~= inorder(gl));
                        assert(inorder(gt).last() == nc);
                    }
                    (*left, Candidate { dist, neighbor })
                },
                r2 => {
                    proof {
                        assert(r2 is Node);
                        assert(inorder(gr).len() >= 1);
                    }
                    let (r3, m) = remove_max(r2);
                    let ghost gr3 = inorder(r3);
                    proof {
                        assert(keys_ge(gr3, dist)) by {
                            assert forall|i: int| 0 <= i < gr3.len() implies (#[trigger] gr3[i]).dist
                                >= dist by {
                                assert(gr3[i] == inorder(gr)[i]);
                            }
                        }
                    }
                    let res0 = rebalance(dist, neighbor, *left, r3);
                    proof {
                        assert(inorder(res0) =~= inorder(gt).drop_last());
                        assert(m == inorder(gt).last()) by {
                            assert(inorder(gt).last() == inorder(gr).last());
                        }
                    }
                    (res0, m)
                },
            }
        },
    }
}

/// The maximum-distance candidate: the last of the in-order sequence.
fn max_x(t: &AvlTree) -> (res: Candidate)
    requires
        wf(*t),
        inorder(*t).len() >= 1,
    ensures
        res == inorder(*t).last(),
    decreases *t,
{
    match t {
        AvlTree::Leaf => {
            proof {
                assert(false);
            }
            Candidate { dist: 0, neighbor: 0 }
        },
        AvlTree::Node { dist, neighbor, height: _h, left, right } => {
            let ghost nc = Candidate { dist: *dist, neighbor: *neighbor };
            let ghost gl = **left;
            let ghost gr = **right;
            proof {
                assert(inorder(*t) == inorder(gl) + seq![nc] + inorder(gr));
            }
            match &**right {
                AvlTree::Leaf => {
                    proof {
                        assert(inorder(gr) =~= Seq::<Candidate>::empty());
                        assert(inorder(*t).last() == nc);
                    }
                    Candidate { dist: *dist, neighbor: *neighbor }
                },
                _ => {
                    proof {
                        assert(inorder(gr).len() >= 1);
                    }
                    let m = max_x(right);
                    proof {
                        assert(inorder(*t).last() == inorder(gr).last());
                    }
                    m
                },
            }
        },
    }
}

/// A point's bounded candidate set: at most `k` candidates, kept in a
/// well-formed tree ordered by distance.
pub struct CandidateTree {
    k: usize,
    n: usize,
    root: AvlTree,
}

impl View for CandidateTree {
    type V = Seq<Candidate>;

    closed spec fn view(&self) -> Seq<Candidate> {
        inorder(self.root)
    }
}

impl CandidateTree {
    /// Capacity `k`: the most candidates ever retained.
    pub closed spec fn cap(self) -> nat {
        self.k as nat
    }

    /// The underlying search tree, for shape statements.
    pub closed spec fn tree(self) -> AvlTree {
        self.root
    }

    /// Well-formedness: the tree is a balanced search tree with correct
    /// cached heights, and holds at most `cap` candidates.
    pub closed spec fn wf(self) -> bool {
        &&& wf(self.root)
        &&& self.n == inorder(self.root).len()
        &&& self.n <= self.k
        &&& 1 <= self.k < usize::MAX
    }

    /// A well-formed candidate set is bounded by its capacity, sorted by
    /// distance in order, and balanced at every node.
    pub proof fn lemma_bounded_sorted_balanced(self)
        requires
            self.wf(),
        ensures
            self@.len() <= self.cap(),
            sorted_by_dist(self@),
            balanced(self.tree()),
    {
        lemma_wf_sorted(self.root);
        lemma_wf_implies_balanced(self.root);
    }

    /// An empty candidate set with capacity `k`.
    pub fn empty(k: usize) -> (t: Self)
        requires
            1 <= k < usize::MAX,
        ensures
            t.wf(),
            t@ == Seq::<Candidate>::empty(),
            t.cap() == k,
    {
        let t = CandidateTree { k, n: 0, root: AvlTree::Leaf };
        proof {
            assert(t@ =~= Seq::<Candidate>::empty());
        }
        t
    }

    pub fn capacity(&self) -> (r: usize)
        ensures
            r == self.cap(),
    {
        self.k
    }

    pub fn len(&self) -> (r: usize)
        requires
            self.wf(),
        ensures
            r == self@.len(),
    {
        self.n
    }

    /// The worst (maximum-distance) retained candidate, if any.
    pub fn max(&self) -> (r: Option<Candidate>)
        requires
            self.wf(),
        ensures
            match r {
                None => self@.len() == 0,
                Some(c) => self@.len() > 0 && c == self@.last(),
            },
    {
        if self.n == 0 {
            None
        } else {
            Some(max_x(&self.root))
        }
    }

    /// Remove and return the worst retained candidate, if any.
    pub fn extract_max(&mut self) -> (r: Option<Candidate>)
        requires
            old(self).wf(),
        ensures
            final(self).wf(),
            final(self).cap() == old(self).cap(),
            match r {
                None => old(self)@.len() == 0 && *final(self) == *old(self),
                Some(c) => {
                    &&& old(self)@.len() > 0
                    &&& c == old(self)@.last()
                    &&& final(self)@ == old(self)@.drop_last()
                },
            },
    {
        if self.n == 0 {
            None
        } else {
            let mut root = AvlTree::Leaf;
            std::mem::swap(&mut root, &mut self.root);
            let (rest, worst) = remove_max(root);
            self.root = rest;
            self.n = self.n - 1;
            Some(worst)
        }
    }

    /// Offer a candidate. Below capacity it is inserted; at capacity it
    /// replaces the current maximum exactly when its distance is strictly
    /// smaller, and otherwise nothing changes.
    pub fn try_insert(&mut self, neighbor: i32, dist: u32)
        requires
            old(self).wf(),
        ensures
            final(self).wf(),
            final(self).cap() == old(self).cap(),
            final(self)@.len() <= final(self).cap(),
            old(self)@.len() < old(self).cap() ==> final(self)@.len() == old(self)@.len() + 1,
            old(self)@.len() == old(self).cap() ==> final(self)@.len() == old(self)@.len(),
            sorted_by_dist(final(self)@),
            balanced(final(self).tree()),
            old(self)@.len() < old(self).cap() ==> final(self)@.to_multiset() == old(self)@.to_multiset().insert((Candidate { dist, neighbor })),
            old(self)@.len() == old(self).cap() && dist < old(self)@.last().dist ==> final(self)@.to_multiset() == old(self)@.drop_last().to_multiset().insert((Candidate { dist, neighbor })),
            old(self)@.len() == old(self).cap() && dist >= old(self)@.last().dist
                ==> *final(self) == *old(self),
    {
        if self.n < self.k {
            let mut root = AvlTree::Leaf;
            std::mem::swap(&mut root, &mut self.root);
            self.root = insert(root, dist, neighbor);
            self.n = self.n + 1;
        } else {
            let worst = max_x(&self.root);
            if dist < worst.dist {
                let mut root = AvlTree::Leaf;
                std::mem::swap(&mut root, &mut self.root);
                let (rest, _evicted) = remove_max(root);
                self.root = insert(rest, dist, neighbor);
            }
        }
        proof {
            lemma_wf_sorted(self.root);
            lemma_wf_implies_balanced(self.root);
        }
    }

    /// What a well-formed candidate set guarantees of its parts.
    pub(crate) proof fn lemma_wf_opens(&self)
        requires
            self.wf(),
        ensures
            wf(self.tree()),
            self@ == inorder(self.tree()),
            self@.len() <= self.cap(),
            1 <= self.cap() < usize::MAX,
    {
    }

    pub(crate) fn tree_ref(&self) -> (r: &AvlTree)
        ensures
            *r == self.tree(),
    {
        &self.root
    }

    /// Decode the candidate set in order of ascending distance.
    pub fn candidates(&self) -> (r: Vec<Candidate>)
        ensures
            r@ == self@,
    {
        let mut out: Vec<Candidate> = Vec::new();
        push_inorder(&self.root, &mut out);
        proof {
            assert(out@ =~= self@);
        }
        out
    }
}

/// Append a tree's in-order candidates to a vector.
fn push_inorder(t: &AvlTree, out: &mut Vec<Candidate>)
    ensures
        final(out)@ == old(out)@ + inorder(*t),
    decreases *t,
{
    match t {
        AvlTree::Leaf => {
            proof {
                assert(out@ =~= old(out)@ + inorder(*t));
            }
        },
        AvlTree::Node { dist, neighbor, height: _h, left, right } => {
            push_inorder(left, out);
            out.push(Candidate { dist: *dist, neighbor: *neighbor });
            push_inorder(right, out);
            proof {
                assert(out@ =~= old(out)@ + inorder(*t));
            }
        },
    }
}

} // verus!
