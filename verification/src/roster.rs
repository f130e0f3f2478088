//! Candidate roster: per point, singly linked lists over a fixed pool of
//! slots, read back for diagnostics. Walking a list is bounded by the
//! pool size and reports loops and out-of-range links instead of hanging.
use vstd::prelude::*;
use vstd::set_lib::lemma_len_subset;
use vstd::set_lib::lemma_int_range;
use vstd::set_lib::set_int_range;
use crate::descriptor::OutOfBounds;
use crate::descriptor::WgslArray2Info;

verus! {

/// How following a roster list ended.
#[derive(Clone, Copy, Debug, PartialEq, Eq, Structural)]
pub enum WalkEnd {
    /// Reached the `-1` terminator cleanly.
    End,
    /// A link pointed outside the slot pool.
    Oob,
    /// A slot was reached twice in one walk.
    Loop,
}

/// One point's decoded per-point meta record: the tree root and the two
/// roster list heads.
#[derive(Clone, Copy, Debug, PartialEq, Eq, Structural)]
pub struct MetaRecord {
    pub root: i32,
    pub head_fresh: i32,
    pub head_stale: i32,
}

/// Number of slots in a roster row of interleaved (next, payload) pairs.
pub open spec fn slot_count(links: Seq<i32>) -> int {
    links.len() as int / 2
}

/// The `next` link of a slot.
pub open spec fn next_of(links: Seq<i32>, s: int) -> int {
    links[2 * s] as int
}

/// The payload carried by a slot.
pub open spec fn payload_of(links: Seq<i32>, s: int) -> int {
    links[2 * s + 1] as int
}

/// Decode a point's meta record: column 0 is the tree root, columns 2
/// and 3 the heads of the two roster categories.
pub fn meta_record(meta_info: &WgslArray2Info, meta: &[i32], point: u32) -> (r: Result<
    MetaRecord,
    OutOfBounds,
>)
    requires
        meta_info.wf(),
        meta@.len() >= meta_info.min_len(),
    ensures
        match r {
            Ok(m) => {
                &&& point < meta_info.rows
                &&& meta_info.cols >= 4
                &&& m.root == meta@[meta_info.spec_address(point, 0)]
                &&& m.head_fresh == meta@[meta_info.spec_address(point, 2)]
                &&& m.head_stale == meta@[meta_info.spec_address(point, 3)]
            },
            Err(_) => point >= meta_info.rows || meta_info.cols < 4,
        },
{
    if meta_info.cols < 4 {
        return Err(OutOfBounds);
    }
    let root = match meta_info.address(point, 0) {
        Ok(a) => meta[a as usize],
        Err(e) => { return Err(e) },
    };
    let head_fresh = match meta_info.address(point, 2) {
        Ok(a) => meta[a as usize],
        Err(e) => { return Err(e) },
    };
    let head_stale = match meta_info.address(point, 3) {
        Ok(a) => meta[a as usize],
        Err(e) => { return Err(e) },
    };
    Ok(MetaRecord { root, head_fresh, head_stale })
}

/// The head of one of a point's roster lists, by category: category 0
/// is the freshly discovered list, category 1 the already-compared one.
pub fn head(meta_info: &WgslArray2Info, meta: &[i32], point: u32, category: u32) -> (r: Result<
    i32,
    OutOfBounds,
>)
    requires
        meta_info.wf(),
        meta@.len() >= meta_info.min_len(),
    ensures
        match r {
            Ok(h) => {
                &&& point < meta_info.rows
                &&& category < 2
                &&& 2 + category < meta_info.cols
                &&& h == meta@[meta_info.spec_address(point, (2 + category) as u32)]
            },
            Err(_) => point >= meta_info.rows || category >= 2 || 2 + category
                >= meta_info.cols,
        },
{
    if category >= 2 {
        return Err(OutOfBounds);
    }
    match meta_info.address(point, 2 + category) {
        Ok(a) => Ok(meta[a as usize]),
        Err(e) => Err(e),
    }
}

/// Follow a roster list from `start` through the interleaved
/// (next, payload) row `links`. The returned path lists each visited
/// slot once, in order; it never exceeds the pool size, whatever the
/// row holds. The end tells whether the walk reached `-1`, left the
/// pool, or came back to a visited slot.
pub fn walk_roster(links: &[i32], start: i32) -> (r: (Vec<usize>, WalkEnd))
    requires
        links@.len() % 2 == 0,
    ensures
        ({
            let path = r.0@;
            let slots = slot_count(links@);
            &&& path.len() <= slots
            &&& (forall|p: int, q: int| 0 <= p < q < path.len() ==> path[p] != path[q])
            &&& (forall|p: int| 0 <= p < path.len() ==> (#[trigger] path[p]) < slots)
            &&& (path.len() == 0 ==> (if start == -1 {
                r.1 == WalkEnd::End
            } else {
                r.1 == WalkEnd::Oob && !(0 <= start < slots)
            }))
            &&& (path.len() > 0 ==> path[0] == start && 0 <= start < slots)
            &&& (forall|p: int|
                0 < p < path.len() ==> next_of(links@, path[p - 1] as int) == (#[trigger] path[p]) as int)
            &&& (path.len() > 0 ==> ({
                let last_next = next_of(links@, path.last() as int);
                match r.1 {
                    WalkEnd::End => last_next == -1,
                    WalkEnd::Oob => last_next != -1 && !(0 <= last_next < slots),
                    WalkEnd::Loop => path.contains(last_next as usize),
                }
            }))
        }),
{
    let slots = links.len() / 2;
    let mut visited: Vec<bool> = Vec::new();
    let mut i: usize = 0;
    while i < slots
        invariant
            i <= slots,
            visited@.len() == i,
            forall|s: int| 0 <= s < i ==> visited@[s] == false,
        decreases slots - i,
    {
        visited.push(false);
        i = i + 1;
    }
    let mut path: Vec<usize> = Vec::new();
    let mut cur: i32 = start;
    let ghost mut seen = Set::<int>::empty();
    loop
        invariant
            links@.len() % 2 == 0,
            slots == slot_count(links@),
            visited@.len() == slots,
            path@.len() == seen.len(),
            seen.finite(),
            seen.subset_of(set_int_range(0, slots as int)),
            forall|s: int| 0 <= s < slots ==> (visited@[s] <==> seen.contains(s)),
            forall|p: int| 0 <= p < path@.len() ==> seen.contains((#[trigger] path@[p]) as int),
            forall|s: int| seen.contains(s) ==> path@.contains(s as usize),
            forall|p: int, q: int| 0 <= p < q < path@.len() ==> path@[p] != path@[q],
            forall|p: int| 0 <= p < path@.len() ==> (#[trigger] path@[p]) < slots,
            path@.len() == 0 ==> cur == start,
            path@.len() > 0 ==> path@[0] == start && 0 <= start < slots,
            path@.len() > 0 ==> next_of(links@, path@.last() as int) == cur,
            forall|p: int|
                0 < p < path@.len() ==> next_of(links@, path@[p - 1] as int) == (#[trigger] path@[p]) as int,
        decreases slot_count(links@) - path@.len(),
    {
        proof {
            lemma_int_range(0, slots as int);
            lemma_len_subset(seen, set_int_range(0, slots as int));
        }
        if cur == -1 {
            return (path, WalkEnd::End);
        }
        if cur < 0 {
            return (path, WalkEnd::Oob);
        }
        let c = cur as usize;
        if c >= slots {
            return (path, WalkEnd::Oob);
        }
        if visited[c] {
            proof {
                assert(seen.contains(c as int));
                assert(path@.contains(c));
            }
            return (path, WalkEnd::Loop);
        }
        proof {
            // A fresh in-range slot: the path stays within the pool size.
            assert(!seen.contains(c as int));
            assert(seen.insert(c as int).len() == seen.len() + 1);
            lemma_len_subset(seen.insert(c as int), set_int_range(0, slots as int));
        }
        let ghost old_path = path@;
        visited[c] = true;
        path.push(c);
        proof {
            seen = seen.insert(c as int);
            assert(path@.last() == c);
            assert(path@.contains(c));
            assert forall|s: int| seen.contains(s) implies path@.contains(s as usize) by {
                if s != c as int {
                    assert(old_path.contains(s as usize));
                    let p = choose|p: int| 0 <= p < old_path.len() && old_path[p] == s as usize;
                    assert(path@[p] == s as usize);
                }
            }
        }
        cur = links[2 * c];
    }
}

} // verus!
