//! Decoding of a finished candidate tree from its flat per-point arrays:
//! four index columns per node slot (height, left, right, parent) and a
//! companion payload row. Decoding validates every structural invariant
//! and reports corruption instead of trusting the kernel.
use vstd::prelude::*;
use vstd::set_lib::lemma_len_subset;
use vstd::set_lib::lemma_int_range;
use vstd::set_lib::set_int_range;
use crate::Fault;

verus! {

/// The shape a flat tree row encodes: which slot sits where.
pub enum Shape {
    Tip,
    Fork(Box<Shape>, usize, Box<Shape>),
}

/// Root slot of a shape, `-1` for the empty shape.
pub open spec fn shape_root(s: Shape) -> int {
    match s {
        Shape::Tip => -1,
        Shape::Fork(_, i, _) => i as int,
    }
}

pub open spec fn shape_height(s: Shape) -> nat
    decreases s,
{
    match s {
        Shape::Tip => 0,
        Shape::Fork(l, _, r) => 1 + if shape_height(*l) >= shape_height(*r) {
            shape_height(*l)
        } else {
            shape_height(*r)
        },
    }
}

/// In-order slot sequence of a shape.
pub open spec fn shape_slots(s: Shape) -> Seq<int>
    decreases s,
{
    match s {
        Shape::Tip => Seq::empty(),
        Shape::Fork(l, i, r) => shape_slots(*l) + seq![i as int] + shape_slots(*r),
    }
}

/// The flat row `avl` (four columns per slot) encodes shape `s` under
/// `root` with the given parent slot: every reached slot is in range,
/// its height column holds the true subtree height, its child and
/// parent columns agree with the shape, and the two children differ in
/// height by at most one.
pub open spec fn represents(avl: Seq<i32>, k: int, root: int, parent: int, s: Shape) -> bool
    decreases s,
{
    match s {
        Shape::Tip => root == -1,
        Shape::Fork(l, i, r) => {
            &&& root == i as int
            &&& (i as int) < k
            &&& avl[4 * (i as int)] == shape_height(s)
            &&& avl[4 * (i as int) + 1] == shape_root(*l)
            &&& avl[4 * (i as int) + 2] == shape_root(*r)
            &&& avl[4 * (i as int) + 3] == parent
            &&& shape_height(*l) <= shape_height(*r) + 1
            &&& shape_height(*r) <= shape_height(*l) + 1
            &&& represents(avl, k, shape_root(*l), i as int, *l)
            &&& represents(avl, k, shape_root(*r), i as int, *r)
        },
    }
}

/// A row encodes at most one shape for a given root and parent.
pub(crate) proof fn lemma_represents_unique(avl: Seq<i32>, k: int, root: int, parent: int, s1: Shape, s2: Shape)
    requires
        represents(avl, k, root, parent, s1),
        represents(avl, k, root, parent, s2),
    ensures
        s1 == s2,
    decreases s1,
{
    match s1 {
        Shape::Tip => {
            assert(s2 is Tip);
        },
        Shape::Fork(l1, i1, r1) => {
            match s2 {
                Shape::Tip => {
                    assert(false);
                },
                Shape::Fork(l2, i2, r2) => {
                    assert(i1 == i2);
                    lemma_represents_unique(avl, k, shape_root(*l1), i1 as int, *l1, *l2);
                    lemma_represents_unique(avl, k, shape_root(*r1), i1 as int, *r1, *r2);
                },
            }
        },
    }
}

/// Every slot a shape reaches stores a height no larger than the
/// shape's own height.
proof fn lemma_represents_stored_heights(avl: Seq<i32>, k: int, root: int, parent: int, s: Shape)
    requires
        represents(avl, k, root, parent, s),
    ensures
        forall|p: int|
            0 <= p < shape_slots(s).len() ==> 1 <= avl[4 * (#[trigger] shape_slots(s)[p])]
                <= shape_height(s),
    decreases s,
{
    match s {
        Shape::Tip => {},
        Shape::Fork(l, i, r) => {
            lemma_represents_stored_heights(avl, k, shape_root(*l), i as int, *l);
            lemma_represents_stored_heights(avl, k, shape_root(*r), i as int, *r);
            let sl = shape_slots(*l);
            let sr = shape_slots(*r);
            let s_all = shape_slots(s);
            let la = sl.len() as int;
            assert forall|p: int| 0 <= p < s_all.len() implies 1 <= avl[4 * (#[trigger] s_all[p])]
                <= shape_height(s) by {
                if p < la {
                    assert(s_all[p] == sl[p]);
                } else if p > la {
                    assert(s_all[p] == sr[p - la - 1]);
                } else {
                    assert(s_all[p] == i as int);
                }
            }
        },
    }
}

/// The set of distinct slots a represented shape reaches is at least as
/// large as its height; since slots lie in `[0, k)`, the height of any
/// represented shape is at most `k`.
pub(crate) proof fn lemma_represents_height_le(avl: Seq<i32>, k: int, root: int, parent: int, s: Shape)
    requires
        represents(avl, k, root, parent, s),
        k >= 0,
    ensures
        shape_height(s) <= k,
{
    lemma_represents_card(avl, k, root, parent, s);
    let slots = shape_slots(s).to_set();
    assert(slots.subset_of(set_int_range(0, k))) by {
        lemma_represents_slots_in_range(avl, k, root, parent, s);
        assert forall|x: int| slots.contains(x) implies set_int_range(0, k).contains(x) by {
            let p = choose|p: int| 0 <= p < shape_slots(s).len() && shape_slots(s)[p] == x;
            assert(0 <= shape_slots(s)[p] < k);
        }
    }
    lemma_int_range(0, k);
    lemma_len_subset(slots, set_int_range(0, k));
    vstd::seq_lib::seq_to_set_is_finite(shape_slots(s));
}

/// Every slot of a represented shape lies in `[0, k)`.
proof fn lemma_represents_slots_in_range(avl: Seq<i32>, k: int, root: int, parent: int, s: Shape)
    requires
        represents(avl, k, root, parent, s),
    ensures
        forall|p: int| 0 <= p < shape_slots(s).len() ==> 0 <= (#[trigger] shape_slots(s)[p]) < k,
    decreases s,
{
    match s {
        Shape::Tip => {},
        Shape::Fork(l, i, r) => {
            lemma_represents_slots_in_range(avl, k, shape_root(*l), i as int, *l);
            lemma_represents_slots_in_range(avl, k, shape_root(*r), i as int, *r);
            let sl = shape_slots(*l);
            let sr = shape_slots(*r);
            let s_all = shape_slots(s);
            let la = sl.len() as int;
            assert forall|p: int| 0 <= p < s_all.len() implies 0 <= (#[trigger] s_all[p]) < k by {
                if p < la {
                    assert(s_all[p] == sl[p]);
                } else if p > la {
                    assert(s_all[p] == sr[p - la - 1]);
                } else {
                    assert(s_all[p] == i as int);
                }
            }
        },
    }
}

/// The distinct slots of a represented shape number at least its height.
proof fn lemma_represents_card(avl: Seq<i32>, k: int, root: int, parent: int, s: Shape)
    requires
        represents(avl, k, root, parent, s),
    ensures
        shape_slots(s).to_set().finite(),
        shape_height(s) <= shape_slots(s).to_set().len(),
    decreases s,
{
    vstd::seq_lib::seq_to_set_is_finite(shape_slots(s));
    match s {
        Shape::Tip => {},
        Shape::Fork(l, i, r) => {
            lemma_represents_card(avl, k, shape_root(*l), i as int, *l);
            lemma_represents_card(avl, k, shape_root(*r), i as int, *r);
            let sl = shape_slots(*l);
            let sr = shape_slots(*r);
            let s_all = shape_slots(s);
            let la = sl.len() as int;
            // Every slot of either child appears among this shape's slots.
            assert forall|x: int| sl.to_set().contains(x) || sr.to_set().contains(x) || x == i as int
                implies s_all.to_set().contains(x) by {
                if sl.to_set().contains(x) {
                    let p = choose|p: int| 0 <= p < sl.len() && sl[p] == x;
                    assert(s_all[p] == x);
                    assert(s_all.contains(x));
                } else if sr.to_set().contains(x) {
                    let p = choose|p: int| 0 <= p < sr.len() && sr[p] == x;
                    assert(s_all[la + 1 + p] == x);
                    assert(s_all.contains(x));
                } else {
                    assert(s_all[la] == x);
                    assert(s_all.contains(x));
                }
            }
            // The root slot stores this shape's height, strictly above any
            // height stored inside a child, so it is fresh in either child.
            lemma_represents_stored_heights(avl, k, shape_root(*l), i as int, *l);
            lemma_represents_stored_heights(avl, k, shape_root(*r), i as int, *r);
            assert(!sl.to_set().contains(i as int)) by {
                if sl.to_set().contains(i as int) {
                    let p = choose|p: int| 0 <= p < sl.len() && sl[p] == i as int;
                    assert(avl[4 * (i as int)] <= shape_height(*l));
                }
            }
            if shape_height(*l) >= shape_height(*r) {
                let grown = sl.to_set().insert(i as int);
                assert(grown.len() == sl.to_set().len() + 1);
                assert(grown.subset_of(s_all.to_set()));
                lemma_len_subset(grown, s_all.to_set());
            } else {
                assert(!sr.to_set().contains(i as int)) by {
                    if sr.to_set().contains(i as int) {
                        let p = choose|p: int| 0 <= p < sr.len() && sr[p] == i as int;
                        assert(avl[4 * (i as int)] <= shape_height(*r));
                    }
                }
                let grown = sr.to_set().insert(i as int);
                assert(grown.len() == sr.to_set().len() + 1);
                assert(grown.subset_of(s_all.to_set()));
                lemma_len_subset(grown, s_all.to_set());
            }
        },
    }
}

/// Decode the subtree rooted at `node`, checking range, parent link,
/// stored heights and balance. Success returns the in-order slot list
/// and the shape it encodes; failure means no shape of height up to
/// `fuel` is encoded there.
pub(crate) fn decode_node(avl: &[i32], k: usize, node: i32, parent: i32, fuel: usize) -> (r: Result<
    (Vec<usize>, Ghost<Shape>),
    Fault,
>)
    requires
        avl@.len() == 4 * k,
        k < i32::MAX,
    ensures
        match r {
            Ok(p) => {
                &&& represents(avl@, k as int, node as int, parent as int, p.1@)
                &&& p.0@.map_values(|u: usize| u as int) == shape_slots(p.1@)
                &&& shape_height(p.1@) <= fuel
            },
            Err(_) => forall|s: Shape|
                shape_height(s) <= fuel ==> !represents(
                    avl@,
                    k as int,
                    node as int,
                    parent as int,
                    s,
                ),
        },
    decreases fuel,
{
    if node == -1 {
        let v: Vec<usize> = Vec::new();
        proof {
            assert(v@.map_values(|u: usize| u as int) =~= shape_slots(Shape::Tip));
        }
        return Ok((v, Ghost(Shape::Tip)));
    }
    if node < 0 || node >= k as i32 {
        proof {
            assert forall|s: Shape| shape_height(s) <= fuel implies !represents(
                avl@,
                k as int,
                node as int,
                parent as int,
                s,
            ) by {
                if represents(avl@, k as int, node as int, parent as int, s) {
                    if s is Tip {
                        assert(node == -1);
                    }
                }
            }
        }
        return Err(Fault::OutOfRange);
    }
    if fuel == 0 {
        proof {
            assert forall|s: Shape| shape_height(s) <= fuel implies !represents(
                avl@,
                k as int,
                node as int,
                parent as int,
                s,
            ) by {
                if represents(avl@, k as int, node as int, parent as int, s) {
                    if s is Tip {
                        assert(node == -1);
                    }
                }
            }
        }
        return Err(Fault::LoopDetected);
    }
    let i = node as usize;
    let n = avl.len();
    proof {
        assert(4 * i + 3 < n);
    }
    let h = avl[4 * i];
    let lch = avl[4 * i + 1];
    let rch = avl[4 * i + 2];
    let par = avl[4 * i + 3];
    if par != parent {
        proof {
            assert forall|s: Shape| shape_height(s) <= fuel implies !represents(
                avl@,
                k as int,
                node as int,
                parent as int,
                s,
            ) by {
                if represents(avl@, k as int, node as int, parent as int, s) {
                    if s is Tip {
                        assert(node == -1);
                    }
                }
            }
        }
        return Err(Fault::Inconsistent);
    }
    let (lv, ls) = match decode_node(avl, k, lch, node, fuel - 1) {
        Ok(p) => p,
        Err(f) => {
            proof {
                assert forall|s: Shape| shape_height(s) <= fuel implies !represents(
                    avl@,
                    k as int,
                    node as int,
                    parent as int,
                    s,
                ) by {
                    if represents(avl@, k as int, node as int, parent as int, s) {
                        if s is Tip {
                            assert(node == -1);
                        } else {
                            let l = *s->Fork_0;
                            assert(represents(avl@, k as int, lch as int, node as int, l));
                            assert(shape_height(l) <= fuel - 1);
                        }
                    }
                }
            }
            return Err(f);
        },
    };
    let (rv, rs) = match decode_node(avl, k, rch, node, fuel - 1) {
        Ok(p) => p,
        Err(f) => {
            proof {
                assert forall|s: Shape| shape_height(s) <= fuel implies !represents(
                    avl@,
                    k as int,
                    node as int,
                    parent as int,
                    s,
                ) by {
                    if represents(avl@, k as int, node as int, parent as int, s) {
                        if s is Tip {
                            assert(node == -1);
                        } else {
                            let r0 = *s->Fork_2;
                            assert(represents(avl@, k as int, rch as int, node as int, r0));
                            assert(shape_height(r0) <= fuel - 1);
                        }
                    }
                }
            }
            return Err(f);
        },
    };
    // Heights the children really have, read back from their root slots.
    proof {
        lemma_represents_height_le(avl@, k as int, lch as int, node as int, ls@);
        lemma_represents_height_le(avl@, k as int, rch as int, node as int, rs@);
    }
    let lh: i64 = if lch == -1 {
        0
    } else {
        proof {
            assert(ls@ is Fork);
        }
        avl[4 * (lch as usize)] as i64
    };
    let rh: i64 = if rch == -1 {
        0
    } else {
        proof {
            assert(rs@ is Fork);
        }
        avl[4 * (rch as usize)] as i64
    };
    proof {
        assert(lh == shape_height(ls@) && rh == shape_height(rs@));
    }
    if lh > rh + 1 || rh > lh + 1 {
        proof {
            assert forall|s: Shape| shape_height(s) <= fuel implies !represents(
                avl@,
                k as int,
                node as int,
                parent as int,
                s,
            ) by {
                if represents(avl@, k as int, node as int, parent as int, s) {
                    if s is Tip {
                        assert(node == -1);
                    } else {
                        lemma_represents_unique(
                            avl@,
                            k as int,
                            lch as int,
                            node as int,
                            *s->Fork_0,
                            ls@,
                        );
                        lemma_represents_unique(
                            avl@,
                            k as int,
                            rch as int,
                            node as int,
                            *s->Fork_2,
                            rs@,
                        );
                    }
                }
            }
        }
        return Err(Fault::Unbalanced);
    }
    let want = 1 + if lh >= rh {
        lh
    } else {
        rh
    };
    if (h as i64) != want {
        proof {
            assert forall|s: Shape| shape_height(s) <= fuel implies !represents(
                avl@,
                k as int,
                node as int,
                parent as int,
                s,
            ) by {
                if represents(avl@, k as int, node as int, parent as int, s) {
                    if s is Tip {
                        assert(node == -1);
                    } else {
                        lemma_represents_unique(
                            avl@,
                            k as int,
                            lch as int,
                            node as int,
                            *s->Fork_0,
                            ls@,
                        );
                        lemma_represents_unique(
                            avl@,
                            k as int,
                            rch as int,
                            node as int,
                            *s->Fork_2,
                            rs@,
                        );
                    }
                }
            }
        }
        return Err(Fault::Inconsistent);
    }
    let ghost shape = Shape::Fork(Box::new(ls@), i, Box::new(rs@));
    let mut out = lv;
    let ghost lslots = out@;
    out.push(i);
    let mut rv2 = rv;
    out.append(&mut rv2);
    proof {
        assert(shape_height(shape) == 1 + if shape_height(ls@) >= shape_height(rs@) {
            shape_height(ls@)
        } else {
            shape_height(rs@)
        });
        assert(avl@[4 * (i as int)] == shape_height(shape));
        assert(represents(avl@, k as int, node as int, parent as int, shape));
        assert(out@.map_values(|u: usize| u as int) =~= shape_slots(shape)) by {
            assert(out@ == lslots.push(i) + rv@);
            assert forall|p: int| 0 <= p < out@.len() implies out@.map_values(|u: usize| u as int)[p]
                == shape_slots(shape)[p] by {
                let la = lslots.len() as int;
                if p < la {
                    assert(out@[p] == lslots[p]);
                    assert(shape_slots(shape)[p] == shape_slots(ls@)[p]);
                } else if p == la {
                    assert(out@[p] == i);
                    assert(shape_slots(shape)[p] == i as int);
                } else {
                    assert(out@[p] == rv@[p - la - 1]);
                    assert(shape_slots(shape)[p] == shape_slots(rs@)[p - la - 1]);
                }
            }
        }
    }
    Ok((out, Ghost(shape)))
}

/// Slots the shape does not reach hold only sentinels.
pub open spec fn dead_slots_sentinel(avl: Seq<i32>, k: int, s: Shape) -> bool {
    forall|j: int|
        0 <= j < k && !shape_slots(s).contains(j) ==> avl[4 * j] == -1 && avl[#[trigger] (4 * j)
            + 1] == -1 && avl[4 * j + 2] == -1 && avl[4 * j + 3] == -1
}

/// The neighbor indices carried in order by the shape's slots.
pub open spec fn shape_payloads(knn: Seq<i32>, s: Shape) -> Seq<i32> {
    shape_slots(s).map_values(|j: int| knn[j])
}

/// A finished per-point row is valid exactly when some shape is encoded
/// under its root with every slot reached at most once, every unreached
/// slot sentinel-filled, and no neighbor retained twice.
pub open spec fn row_valid(avl: Seq<i32>, knn: Seq<i32>, k: int, root: int) -> bool {
    exists|s: Shape|
        {
            &&& #[trigger] represents(avl, k, root, -1, s)
            &&& shape_slots(s).no_duplicates()
            &&& dead_slots_sentinel(avl, k, s)
            &&& shape_payloads(knn, s).no_duplicates()
        }
}

/// A sentinel-filled row with an empty root is valid and holds nothing:
/// what the assembler lays out is exactly what an untouched point
/// decodes back to.
pub proof fn lemma_sentinel_row_valid(avl: Seq<i32>, knn: Seq<i32>, k: int)
    requires
        crate::assemble::all_neg_one(avl),
        avl.len() == 4 * k,
    ensures
        row_valid(avl, knn, k, -1),
        forall|s: Shape|
            #[trigger] represents(avl, k, -1, -1, s) ==> shape_payloads(knn, s) == Seq::<
                i32,
            >::empty(),
{
    let s = Shape::Tip;
    assert(represents(avl, k, -1, -1, s));
    assert(shape_slots(s).no_duplicates());
    assert(dead_slots_sentinel(avl, k, s)) by {
        assert forall|j: int| 0 <= j < k && !shape_slots(s).contains(j) implies avl[4 * j] == -1
            && avl[#[trigger] (4 * j) + 1] == -1 && avl[4 * j + 2] == -1 && avl[4 * j + 3]
            == -1 by {
            assert(avl[4 * j] == -1int);
            assert(avl[4 * j + 1] == -1int);
            assert(avl[4 * j + 2] == -1int);
            assert(avl[4 * j + 3] == -1int);
        }
    }
    assert(shape_payloads(knn, s).no_duplicates());
    assert forall|s2: Shape| #[trigger] represents(avl, k, -1, -1, s2) implies shape_payloads(
        knn,
        s2,
    ) == Seq::<i32>::empty() by {
        lemma_represents_unique(avl, k, -1, -1, s2, s);
        assert(shape_payloads(knn, s) =~= Seq::<i32>::empty());
    }
}

/// Decode one point's finished candidate tree: the in-order neighbor
/// payloads, ascending by the kernel's distance order. Succeeds exactly
/// on valid rows; any structural corruption is reported as a fault.
#[verifier::loop_isolation(false)]
pub fn decode_row(avl: &[i32], knn: &[i32], k: usize, root: i32) -> (r: Result<Vec<i32>, Fault>)
    requires
        avl@.len() == 4 * k,
        knn@.len() == k,
        k < i32::MAX,
    ensures
        match r {
            Ok(v) => row_valid(avl@, knn@, k as int, root as int) && exists|s: Shape|
                #[trigger] represents(avl@, k as int, root as int, -1, s) && v@ == shape_payloads(
                    knn@,
                    s,
                ),
            Err(_) => !row_valid(avl@, knn@, k as int, root as int),
        },
{
    let (slots, gs) = match decode_node(avl, k, root, -1, k) {
        Ok(p) => p,
        Err(f) => {
            proof {
                assert forall|s: Shape| !(#[trigger] represents(
                    avl@,
                    k as int,
                    root as int,
                    -1,
                    s,
                ) && shape_slots(s).no_duplicates() && dead_slots_sentinel(avl@, k as int, s)
                    && shape_payloads(knn@, s).no_duplicates()) by {
                    if represents(avl@, k as int, root as int, -1, s) {
                        lemma_represents_height_le(avl@, k as int, root as int, -1, s);
                    }
                }
            }
            return Err(f);
        },
    };
    let ghost slots_int = slots@.map_values(|u: usize| u as int);
    proof {
        lemma_represents_slots_in_range(avl@, k as int, root as int, -1, gs@);
    }
    // Each slot may be reached once only.
    let mut visited: Vec<bool> = Vec::new();
    let mut i: usize = 0;
    while i < k
        invariant
            i <= k,
            visited@.len() == i,
            forall|j: int| 0 <= j < i ==> visited@[j] == false,
        decreases k - i,
    {
        visited.push(false);
        i = i + 1;
    }
    let mut p: usize = 0;
    while p < slots.len()
        invariant
            p <= slots@.len(),
            slots_int == slots@.map_values(|u: usize| u as int),
            slots_int == shape_slots(gs@),
            forall|q: int| 0 <= q < slots_int.len() ==> 0 <= (#[trigger] slots_int[q]) < k,
            visited@.len() == k,
            forall|j: int|
                0 <= j < k ==> ((#[trigger] visited@[j]) <==> slots_int.subrange(
                    0,
                    p as int,
                ).contains(j)),
            slots_int.subrange(0, p as int).no_duplicates(),
        decreases slots@.len() - p,
    {
        let sl = slots[p];
        proof {
            assert(slots_int[p as int] == sl as int);
        }
        if visited[sl] {
            proof {
                // The one encoded shape reaches this slot twice.
                assert(slots_int.subrange(0, p as int).contains(sl as int));
                let q = choose|q: int|
                    0 <= q < p && slots_int.subrange(0, p as int)[q] == sl as int;
                assert(slots_int[q] == slots_int[p as int]);
                assert(!shape_slots(gs@).no_duplicates());
                assert forall|s: Shape| !(#[trigger] represents(
                    avl@,
                    k as int,
                    root as int,
                    -1,
                    s,
                ) && shape_slots(s).no_duplicates() && dead_slots_sentinel(avl@, k as int, s)
                    && shape_payloads(knn@, s).no_duplicates()) by {
                    if represents(avl@, k as int, root as int, -1, s) {
                        lemma_represents_unique(avl@, k as int, root as int, -1, s, gs@);
                    }
                }
            }
            return Err(Fault::LoopDetected);
        }
        visited[sl] = true;
        proof {
            assert(slots_int.subrange(0, p + 1).drop_last() =~= slots_int.subrange(0, p as int));
            assert forall|j: int|
                0 <= j < k implies ((#[trigger] visited@[j]) <==> slots_int.subrange(
                0,
                p + 1,
            ).contains(j)) by {
                let pre = slots_int.subrange(0, p as int);
                let now = slots_int.subrange(0, p + 1);
                if j == sl as int {
                    assert(now[p as int] == j);
                } else {
                    assert(forall|q: int| 0 <= q < p ==> pre[q] == #[trigger] now[q]);
                    if pre.contains(j) {
                        let q = choose|q: int| 0 <= q < p && pre[q] == j;
                        assert(now[q] == j);
                    } else if now.contains(j) {
                        let q = choose|q: int| 0 <= q < p + 1 && now[q] == j;
                        assert(q < p);
                        assert(pre[q] == j);
                    }
                }
            }
        }
        p = p + 1;
    }
    proof {
        assert(slots_int.subrange(0, slots_int.len() as int) =~= slots_int);
    }
    // Any live slot the root does not reach is corruption.
    let n = avl.len();
    let mut j: usize = 0;
    while j < k
        invariant
            j <= k,
            avl@.len() == 4 * k,
            k < i32::MAX,
            visited@.len() == k,
            slots_int == shape_slots(gs@),
            forall|jj: int| 0 <= jj < k ==> ((#[trigger] visited@[jj]) <==> slots_int.contains(jj)),
            forall|jj: int|
                0 <= jj < j && !slots_int.contains(jj) ==> avl@[4 * jj] == -1 && avl@[#[trigger] (4
                    * jj) + 1] == -1 && avl@[4 * jj + 2] == -1 && avl@[4 * jj + 3] == -1,
        decreases k - j,
    {
        if !visited[j] {
            proof {
                assert(4 * j + 3 < n);
            }
            if avl[4 * j] != -1 || avl[4 * j + 1] != -1 || avl[4 * j + 2] != -1 || avl[4 * j + 3]
                != -1 {
                proof {
                    assert(!dead_slots_sentinel(avl@, k as int, gs@));
                    assert forall|s: Shape| !(#[trigger] represents(
                        avl@,
                        k as int,
                        root as int,
                        -1,
                        s,
                    ) && shape_slots(s).no_duplicates() && dead_slots_sentinel(avl@, k as int, s)
                        && shape_payloads(knn@, s).no_duplicates()) by {
                        if represents(avl@, k as int, root as int, -1, s) {
                            lemma_represents_unique(avl@, k as int, root as int, -1, s, gs@);
                        }
                    }
                }
                return Err(Fault::Inconsistent);
            }
        }
        j = j + 1;
    }
    // Collect the neighbor payloads in order.
    let mut out: Vec<i32> = Vec::new();
    let mut q: usize = 0;
    while q < slots.len()
        invariant
            q <= slots@.len(),
            knn@.len() == k,
            slots_int == slots@.map_values(|u: usize| u as int),
            slots_int == shape_slots(gs@),
            forall|t: int| 0 <= t < slots_int.len() ==> 0 <= (#[trigger] slots_int[t]) < k,
            out@.len() == q,
            forall|t: int| 0 <= t < q ==> out@[t] == knn@[#[trigger] slots_int[t]],
        decreases slots@.len() - q,
    {
        proof {
            assert(slots_int[q as int] == slots@[q as int] as int);
        }
        out.push(knn[slots[q]]);
        q = q + 1;
    }
    proof {
        assert(out@ =~= shape_payloads(knn@, gs@));
    }
    // A neighbor retained twice by one point is corruption.
    let mut a: usize = 0;
    while a < out.len()
        invariant
            a <= out@.len(),
            forall|t1: int, t2: int| 0 <= t1 < t2 < out@.len() && t1 < a ==> out@[t1] != out@[t2],
        decreases out@.len() - a,
    {
        let mut b: usize = a + 1;
        while b < out.len()
            invariant
                a < b || a + 1 == b,
                a < out@.len(),
                a + 1 <= b <= out@.len(),
                forall|t2: int| a < t2 < b ==> out@[a as int] != out@[t2],
            decreases out@.len() - b,
        {
            if out[a] == out[b] {
                proof {
                    assert(!shape_payloads(knn@, gs@).no_duplicates());
                    assert forall|s: Shape| !(#[trigger] represents(
                        avl@,
                        k as int,
                        root as int,
                        -1,
                        s,
                    ) && shape_slots(s).no_duplicates() && dead_slots_sentinel(avl@, k as int, s)
                        && shape_payloads(knn@, s).no_duplicates()) by {
                        if represents(avl@, k as int, root as int, -1, s) {
                            lemma_represents_unique(avl@, k as int, root as int, -1, s, gs@);
                        }
                    }
                }
                return Err(Fault::DuplicateNeighbor);
            }
            b = b + 1;
        }
        a = a + 1;
    }
    proof {
        assert(represents(avl@, k as int, root as int, -1, gs@) && shape_slots(
            gs@,
        ).no_duplicates() && dead_slots_sentinel(avl@, k as int, gs@) && shape_payloads(
            knn@,
            gs@,
        ).no_duplicates());
    }
    Ok(out)
}

/// The neighbor indices of a candidate sequence, in the same order.
pub open spec fn neighbors_of(s: Seq<crate::tree::Candidate>) -> Seq<i32> {
    s.map_values(|c: crate::tree::Candidate| c.neighbor)
}

/// Number of candidates a tree holds.
fn size_x(t: &crate::tree::AvlTree) -> (r: usize)
    requires
        crate::tree::inorder(*t).len() < usize::MAX,
    ensures
        r == crate::tree::inorder(*t).len(),
    decreases *t,
{
    match t {
        crate::tree::AvlTree::Leaf => 0,
        crate::tree::AvlTree::Node { left, right, .. } => {
            proof {
                assert(crate::tree::inorder(*t).len() == crate::tree::inorder(**left).len() + 1
                    + crate::tree::inorder(**right).len());
            }
            1 + size_x(left) + size_x(right)
        },
    }
}

/// Write the subtree `t` into the flat rows in preorder, its root at
/// slot `base`: its own four columns and payload first, then the left
/// subtree at the following slots, then the right. The rows only grow,
/// and any full row extending what was written encodes the returned
/// shape.
#[verifier::rlimit(60)]
fn fill(
    t: &crate::tree::AvlTree,
    base: usize,
    parent: i32,
    k: usize,
    avl_seg: &mut Vec<i32>,
    knn_seg: &mut Vec<i32>,
) -> (r: (i32, Ghost<Shape>))
    requires
        crate::tree::wf(*t),
        old(avl_seg)@.len() == 4 * base,
        old(knn_seg)@.len() == base,
        base + crate::tree::inorder(*t).len() <= k,
        k < i32::MAX,
    ensures
        ({
            let size = crate::tree::inorder(*t).len();
            let shape = r.1@;
            &&& final(avl_seg)@.len() == 4 * (base + size)
            &&& final(knn_seg)@.len() == base + size
            &&& final(avl_seg)@.subrange(0, 4 * base as int) == old(avl_seg)@
            &&& final(knn_seg)@.subrange(0, base as int) == old(knn_seg)@
            &&& r.0 as int == shape_root(shape)
            &&& (size == 0 <==> r.0 == -1)
            &&& (size > 0 ==> r.0 == base)
            &&& shape_height(shape) == crate::tree::height_of(*t)
            &&& shape_slots(shape).len() == size
            &&& (forall|p: int|
                0 <= p < shape_slots(shape).len() ==> base <= #[trigger] shape_slots(shape)[p]
                    < base + size)
            &&& shape_slots(shape).no_duplicates()
            &&& (forall|full: Seq<i32>|
                full.len() == 4 * k && #[trigger] full.subrange(0, 4 * (base + size) as int)
                    == final(avl_seg)@ ==> represents(
                    full,
                    k as int,
                    r.0 as int,
                    parent as int,
                    shape,
                ))
            &&& (forall|fullk: Seq<i32>|
                fullk.len() == k
                    && #[trigger] fullk.subrange(0, (base + size) as int) == final(knn_seg)@
                    ==> shape_payloads(fullk, shape) == neighbors_of(crate::tree::inorder(*t)))
        }),
    decreases *t,
{
    let ghost gt = *t;
    match t {
        crate::tree::AvlTree::Leaf => {
            proof {
                assert(avl_seg@.subrange(0, 4 * base as int) =~= avl_seg@);
                assert(knn_seg@.subrange(0, base as int) =~= knn_seg@);
                assert(shape_slots(Shape::Tip) =~= Seq::<int>::empty());
                assert forall|fullk: Seq<i32>|
                    fullk.len() == k && #[trigger] fullk.subrange(0, (base + 0) as int)
                        == knn_seg@ implies shape_payloads(fullk, Shape::Tip) == neighbors_of(
                    crate::tree::inorder(gt),
                ) by {
                    assert(shape_payloads(fullk, Shape::Tip) =~= neighbors_of(
                        crate::tree::inorder(gt),
                    ));
                }
            }
            (-1, Ghost(Shape::Tip))
        },
        crate::tree::AvlTree::Node { dist: _d, neighbor: nb, height: h, left, right } => {
            let ghost gl = **left;
            let ghost gr = **right;
            proof {
                assert(crate::tree::inorder(gt) == crate::tree::inorder(gl) + seq![
                    crate::tree::Candidate { dist: *_d, neighbor: *nb },
                ] + crate::tree::inorder(gr));
                crate::tree::lemma_height_le_len(gt);
            }
            let lsize = size_x(left);
            let rsize = size_x(right);
            let lroot: i32 = if lsize == 0 {
                -1
            } else {
                (base + 1) as i32
            };
            let rroot: i32 = if rsize == 0 {
                -1
            } else {
                (base + 1 + lsize) as i32
            };
            avl_seg.push(*h as i32);
            avl_seg.push(lroot);
            avl_seg.push(rroot);
            avl_seg.push(parent);
            knn_seg.push(*nb);
            let ghost avl_own = avl_seg@;
            let ghost knn_own = knn_seg@;
            let (lroot2, ls) = fill(left, base + 1, base as i32, k, avl_seg, knn_seg);
            let ghost avl_after_l = avl_seg@;
            let ghost knn_after_l = knn_seg@;
            let (rroot2, rs) = fill(right, base + 1 + lsize, base as i32, k, avl_seg, knn_seg);
            let ghost shape = Shape::Fork(Box::new(ls@), base, Box::new(rs@));
            proof {
                let size = crate::tree::inorder(gt).len();
                assert(lroot2 == lroot && rroot2 == rroot);
                // The earlier segments survive each append as prefixes.
                assert(avl_seg@.subrange(0, avl_after_l.len() as int) == avl_after_l);
                assert(avl_after_l.subrange(0, avl_own.len() as int) == avl_own);
                assert(avl_seg@.subrange(0, avl_own.len() as int) =~= avl_own.subrange(
                    0,
                    avl_own.len() as int,
                ));
                assert(avl_seg@.subrange(0, 4 * base as int) =~= old(avl_seg)@);
                assert(knn_seg@.subrange(0, knn_after_l.len() as int) == knn_after_l);
                assert(knn_after_l.subrange(0, knn_own.len() as int) == knn_own);
                assert(knn_seg@.subrange(0, knn_own.len() as int) =~= knn_own.subrange(
                    0,
                    knn_own.len() as int,
                ));
                assert(knn_seg@.subrange(0, base as int) =~= old(knn_seg)@);
                // In-order slots of the shape: left part, own, right part.
                assert(shape_slots(shape) == shape_slots(ls@) + seq![base as int] + shape_slots(
                    rs@,
                ));
                let sl = shape_slots(ls@);
                let sr = shape_slots(rs@);
                let s_all = shape_slots(shape);
                let la = sl.len() as int;
                assert forall|p: int| 0 <= p < s_all.len() implies base <= #[trigger] s_all[p]
                    < base + size by {
                    if p < la {
                        assert(s_all[p] == sl[p]);
                    } else if p > la {
                        assert(s_all[p] == sr[p - la - 1]);
                    } else {
                        assert(s_all[p] == base as int);
                    }
                }
                assert forall|p: int, q: int| 0 <= p < q < s_all.len() implies s_all[p]
                    != s_all[q] by {
                    if p < la {
                        assert(s_all[p] == sl[p]);
                    } else if p > la {
                        assert(s_all[p] == sr[p - la - 1]);
                    } else {
                        assert(s_all[p] == base as int);
                    }
                    if q < la {
                        assert(s_all[q] == sl[q]);
                    } else if q > la {
                        assert(s_all[q] == sr[q - la - 1]);
                    } else {
                        assert(s_all[q] == base as int);
                    }
                }
                // Any full tree row extending the written segment encodes
                // the shape: its own columns hold what was pushed, and the
                // children's quantified facts apply to the same row.
                assert forall|full: Seq<i32>|
                    full.len() == 4 * k && #[trigger] full.subrange(0, 4 * (base + size) as int)
                        == avl_seg@ implies represents(
                    full,
                    k as int,
                    base as int,
                    parent as int,
                    shape,
                ) by {
                    assert(full.subrange(0, 4 * (base + 1 + lsize + rsize) as int) == avl_seg@);
                    assert(full.subrange(0, 4 * (base + 1 + lsize) as int) =~= avl_seg@.subrange(
                        0,
                        avl_after_l.len() as int,
                    ));
                    assert(represents(full, k as int, lroot2 as int, base as int, ls@));
                    assert(represents(full, k as int, rroot2 as int, base as int, rs@));
                    assert(full[4 * base as int] == avl_own[4 * base as int]);
                    assert(full[4 * base as int + 1] == avl_own[4 * base as int + 1]);
                    assert(full[4 * base as int + 2] == avl_own[4 * base as int + 2]);
                    assert(full[4 * base as int + 3] == avl_own[4 * base as int + 3]);
                    assert(full[4 * base as int] == *h as i32);
                    assert(shape_height(shape) == crate::tree::height_of(gt));
                }
                assert forall|fullk: Seq<i32>|
                    fullk.len() == k && #[trigger] fullk.subrange(0, (base + size) as int)
                        == knn_seg@ implies shape_payloads(fullk, shape) == neighbors_of(
                    crate::tree::inorder(gt),
                ) by {
                    assert(fullk.subrange(0, (base + 1 + lsize) as int) =~= knn_seg@.subrange(
                        0,
                        knn_after_l.len() as int,
                    ));
                    assert(shape_payloads(fullk, ls@) == neighbors_of(crate::tree::inorder(gl)));
                    assert(shape_payloads(fullk, rs@) == neighbors_of(crate::tree::inorder(gr)));
                    assert(fullk[base as int] == knn_own[base as int]);
                    assert(fullk[base as int] == *nb);
                    let lhs = shape_payloads(fullk, shape);
                    let rhs = neighbors_of(crate::tree::inorder(gt));
                    assert forall|p: int| 0 <= p < lhs.len() implies lhs[p] == rhs[p] by {
                        if p < la {
                            assert(s_all[p] == sl[p]);
                            assert(lhs[p] == shape_payloads(fullk, ls@)[p]);
                            assert(rhs[p] == neighbors_of(crate::tree::inorder(gl))[p]);
                        } else if p > la {
                            assert(s_all[p] == sr[p - la - 1]);
                            assert(lhs[p] == shape_payloads(fullk, rs@)[p - la - 1]);
                            assert(rhs[p] == neighbors_of(crate::tree::inorder(gr))[p - la - 1]);
                        } else {
                            assert(s_all[p] == base as int);
                            assert(crate::tree::inorder(gt)[p] == (crate::tree::Candidate {
                                dist: *_d,
                                neighbor: *nb,
                            }));
                        }
                    }
                    assert(lhs =~= rhs);
                }
            }
            (base as i32, (Ghost(shape)))
        },
    }
}

/// A subset of a finite set with the same size is the whole set.
proof fn lemma_subset_same_len(a: Set<int>, b: Set<int>)
    requires
        a.subset_of(b),
        b.finite(),
        a.len() == b.len(),
    ensures
        a == b,
{
    vstd::set_lib::lemma_len_subset(a, b);
    if a != b {
        assert(exists|x: int| b.contains(x) && !a.contains(x)) by {
            if forall|x: int| b.contains(x) ==> #[trigger] a.contains(x) {
                assert(a =~= b);
            }
        }
        let x = choose|x: int| b.contains(x) && !a.contains(x);
        assert(a.subset_of(b.remove(x)));
        vstd::set_lib::lemma_len_subset(a, b.remove(x));
        assert(b.remove(x).len() == b.len() - 1);
    }
}

/// Encode a candidate set into the flat per-point rows the kernel
/// works on: preorder slot assignment, sentinel-filled free slots, and
/// a root index. What was encoded decodes back to the same neighbors
/// in the same distance order.
pub fn encode_row(t: &crate::tree::CandidateTree) -> (r: (Vec<i32>, Vec<i32>, i32))
    requires
        t.wf(),
        t.cap() < i32::MAX,
        4 * t.cap() <= usize::MAX,
    ensures
        r.0@.len() == 4 * t.cap(),
        r.1@.len() == t.cap(),
        exists|s: Shape|
            {
                &&& #[trigger] represents(r.0@, t.cap() as int, r.2 as int, -1, s)
                &&& shape_slots(s).no_duplicates()
                &&& dead_slots_sentinel(r.0@, t.cap() as int, s)
                &&& shape_payloads(r.1@, s) == neighbors_of(t@)
            },
        neighbors_of(t@).no_duplicates() ==> row_valid(r.0@, r.1@, t.cap() as int, r.2 as int),
{
    proof {
        t.lemma_wf_opens();
    }
    let k = t.capacity();
    let n = t.len();
    let mut avl: Vec<i32> = Vec::new();
    let mut knn: Vec<i32> = Vec::new();
    let (root, gs) = fill(t.tree_ref(), 0, -1, k, &mut avl, &mut knn);
    let ghost avl_filled = avl@;
    let ghost knn_filled = knn@;
    while avl.len() < 4 * k
        invariant
            avl@.len() >= 4 * n,
            avl@.len() <= 4 * k,
            n <= k < i32::MAX,
            4 * k <= usize::MAX,
            avl@.subrange(0, 4 * n as int) == avl_filled,
            forall|j: int| 4 * n <= j < avl@.len() ==> avl@[j] == -1int,
        decreases 4 * k - avl@.len(),
    {
        avl.push(-1);
    }
    while knn.len() < k
        invariant
            knn@.len() >= n,
            knn@.len() <= k,
            n <= k < i32::MAX,
            4 * k <= usize::MAX,
            knn@.subrange(0, n as int) == knn_filled,
            forall|j: int| n <= j < knn@.len() ==> knn@[j] == -1int,
        decreases k - knn@.len(),
    {
        knn.push(-1);
    }
    proof {
        let shape = gs@;
        assert(avl@.subrange(0, 4 * n as int) == avl_filled && avl@.len() == 4 * k);
        assert(represents(avl@, k as int, root as int, -1, shape));
        assert(shape_payloads(knn@, shape) == neighbors_of(t@));
        // Slots 0 .. n are exactly the shape's slots, so every other
        // slot was sentinel-padded.
        let slots = shape_slots(shape).to_set();
        vstd::seq_lib::seq_to_set_is_finite(shape_slots(shape));
        shape_slots(shape).unique_seq_to_set();
        vstd::set_lib::lemma_int_range(0, n as int);
        assert(slots.subset_of(vstd::set_lib::set_int_range(0, n as int))) by {
            assert forall|x: int| slots.contains(x) implies vstd::set_lib::set_int_range(
                0,
                n as int,
            ).contains(x) by {
                let p = choose|p: int|
                    0 <= p < shape_slots(shape).len() && shape_slots(shape)[p] == x;
                assert(0 <= shape_slots(shape)[p] < n);
            }
        }
        lemma_subset_same_len(slots, vstd::set_lib::set_int_range(0, n as int));
        assert(dead_slots_sentinel(avl@, k as int, shape)) by {
            assert forall|j: int|
                0 <= j < k && !shape_slots(shape).contains(j) implies avl@[4 * j] == -1
                && avl@[#[trigger] (4 * j) + 1] == -1 && avl@[4 * j + 2] == -1 && avl@[4 * j + 3]
                == -1 by {
                assert(!slots.contains(j));
                assert(!vstd::set_lib::set_int_range(0, n as int).contains(j));
                assert(j >= n);
                assert(avl@[4 * j] == -1int);
                assert(avl@[4 * j + 1] == -1int);
                assert(avl@[4 * j + 2] == -1int);
                assert(avl@[4 * j + 3] == -1int);
            }
        }
        // The shape witnesses every clause promised of the result.
        assert(represents(avl@, t.cap() as int, root as int, -1, shape));
        assert(dead_slots_sentinel(avl@, t.cap() as int, shape));
        if neighbors_of(t@).no_duplicates() {
            assert(shape_payloads(knn@, shape).no_duplicates());
            assert(row_valid(avl@, knn@, t.cap() as int, root as int));
        }
    }
    let res = (avl, knn, root);
    proof {
        let shape = gs@;
        assert(exists|s: Shape|
            {
                &&& #[trigger] represents(res.0@, t.cap() as int, res.2 as int, -1, s)
                &&& shape_slots(s).no_duplicates()
                &&& dead_slots_sentinel(res.0@, t.cap() as int, s)
                &&& shape_payloads(res.1@, s) == neighbors_of(t@)
            }) by {
            assert(represents(res.0@, t.cap() as int, res.2 as int, -1, shape));
            assert(shape_slots(shape).no_duplicates());
            assert(dead_slots_sentinel(res.0@, t.cap() as int, shape));
            assert(shape_payloads(res.1@, shape) == neighbors_of(t@));
        }
    }
    res
}

} // verus!
