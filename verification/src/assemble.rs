//! Host buffer assembler: builds the sentinel-initialized flat arrays the
//! compute kernel works on, packs the scratch arrays into one region, and
//! splits a read-back region into the same sub-arrays.
use vstd::prelude::*;
use crate::descriptor::OutOfBounds;
use crate::descriptor::WgslArray2Info;
use crate::descriptor::WgslArray3Info;

verus! {

/// Scalar constants and descriptors handed to the compute pipeline.
#[derive(Clone, Copy, Debug, PartialEq, Eq, Structural)]
pub struct WgslArgs {
    pub data_info: WgslArray2Info,
    pub knn_info: WgslArray2Info,
    pub avl_info: WgslArray3Info,
    pub meta_info: WgslArray2Info,
    pub link_info: WgslArray3Info,
    pub candidates: u32,
}

/// The sentinel-initialized index arrays the assembler allocates.
pub struct InitBuffers {
    pub knn: Vec<i32>,
    pub avl: Vec<i32>,
    pub meta: Vec<i32>,
    pub link: Vec<i32>,
}

/// Read-back views of the three scratch sub-arrays.
pub struct WgslSlices<'a> {
    pub avl: &'a [i32],
    pub meta: &'a [i32],
    pub link: &'a [i32],
}

pub open spec fn all_neg_one(s: Seq<i32>) -> bool {
    forall|i: int| 0 <= i < s.len() ==> s[i] == -1int
}

/// A vector of `len` sentinel entries.
fn neg_ones(len: usize) -> (v: Vec<i32>)
    ensures
        v@.len() == len,
        all_neg_one(v@),
{
    let mut v: Vec<i32> = Vec::new();
    let mut i: usize = 0;
    while i < len
        invariant
            i <= len,
            v@.len() == i,
            all_neg_one(v@),
        decreases len - i,
    {
        v.push(-1);
        i = i + 1;
    }
    v
}

/// Lay out and sentinel-fill every per-point array for `rows` points,
/// `k` retained neighbors and `candidates` roster slots per point:
/// the neighbor output, the candidate tree nodes, the meta records and
/// the roster, each with a packed row-major descriptor whose declared
/// logical size equals its buffer's length.
pub fn assemble(data_info: WgslArray2Info, k: u32, candidates: u32) -> (r: (WgslArgs, InitBuffers))
    requires
        1 <= k,
        k <= candidates,
        1 <= data_info.rows,
        data_info.rows * k * 4 <= u32::MAX,
        data_info.rows * candidates * 2 <= u32::MAX,
        data_info.rows * 4 <= u32::MAX,
    ensures
        r.0.data_info == data_info,
        r.0.candidates == candidates,
        r.0.knn_info == (WgslArray2Info {
            offset: 0,
            rows: data_info.rows,
            cols: k,
            row_strides: k,
            col_strides: 1,
        }),
        r.0.avl_info == (WgslArray3Info {
            offset: 0,
            rows: data_info.rows,
            cols: k,
            voxs: 4,
            row_strides: (k * 4) as u32,
            col_strides: 4,
            vox_strides: 1,
        }),
        r.0.meta_info == (WgslArray2Info {
            offset: 0,
            rows: data_info.rows,
            cols: 4,
            row_strides: 4,
            col_strides: 1,
        }),
        r.0.link_info == (WgslArray3Info {
            offset: 0,
            rows: data_info.rows,
            cols: candidates,
            voxs: 2,
            row_strides: (candidates * 2) as u32,
            col_strides: 2,
            vox_strides: 1,
        }),
        r.0.knn_info.wf() && r.0.knn_info.packed(),
        r.0.avl_info.wf() && r.0.avl_info.packed(),
        r.0.meta_info.wf() && r.0.meta_info.packed(),
        r.0.link_info.wf() && r.0.link_info.packed(),
        r.1.knn@.len() == r.0.knn_info.min_len(),
        r.1.avl@.len() == r.0.avl_info.min_len(),
        r.1.meta@.len() == r.0.meta_info.min_len(),
        r.1.link@.len() == r.0.link_info.min_len(),
        r.1.knn@.len() == data_info.rows * k,
        r.1.avl@.len() == data_info.rows * k * 4,
        r.1.meta@.len() == data_info.rows * 4,
        r.1.link@.len() == data_info.rows * candidates * 2,
        all_neg_one(r.1.knn@),
        all_neg_one(r.1.avl@),
        all_neg_one(r.1.meta@),
        all_neg_one(r.1.link@),
{
    let rows = data_info.rows;
    proof {
        assert(rows * k <= rows * k * 4 && rows * (k * 4) == rows * k * 4 && rows * (candidates
            * 2) == rows * candidates * 2 && k * 4 <= rows * k * 4 && candidates * 2 <= rows
            * candidates * 2) by (nonlinear_arith)
            requires
                1 <= rows && 1 <= k && 1 <= candidates,
        ;
    }
    let knn_info = WgslArray2Info {
        offset: 0,
        rows,
        cols: k,
        row_strides: k,
        col_strides: 1,
    };
    let avl_info = WgslArray3Info {
        offset: 0,
        rows,
        cols: k,
        voxs: 4,
        row_strides: k * 4,
        col_strides: 4,
        vox_strides: 1,
    };
    let meta_info = WgslArray2Info { offset: 0, rows, cols: 4, row_strides: 4, col_strides: 1 };
    let link_info = WgslArray3Info {
        offset: 0,
        rows,
        cols: candidates,
        voxs: 2,
        row_strides: candidates * 2,
        col_strides: 2,
        vox_strides: 1,
    };
    proof {
        assert(knn_info.min_len() == rows * k && avl_info.min_len() == rows * k * 4
            && meta_info.min_len() == rows * 4 && link_info.min_len() == rows * candidates * 2)
            by (nonlinear_arith)
            requires
                1 <= rows && 1 <= k && 1 <= candidates,
                knn_info == (WgslArray2Info {
                    offset: 0,
                    rows,
                    cols: k,
                    row_strides: k,
                    col_strides: 1,
                }),
                avl_info == (WgslArray3Info {
                    offset: 0,
                    rows,
                    cols: k,
                    voxs: 4,
                    row_strides: (k * 4) as u32,
                    col_strides: 4,
                    vox_strides: 1,
                }),
                meta_info == (WgslArray2Info {
                    offset: 0,
                    rows,
                    cols: 4,
                    row_strides: 4,
                    col_strides: 1,
                }),
                link_info == (WgslArray3Info {
                    offset: 0,
                    rows,
                    cols: candidates,
                    voxs: 2,
                    row_strides: (candidates * 2) as u32,
                    col_strides: 2,
                    vox_strides: 1,
                }),
                rows * k * 4 <= u32::MAX,
                rows * candidates * 2 <= u32::MAX,
                rows * 4 <= u32::MAX,
        ;
        assert(k * 4 >= k * 4 * 1 && candidates * 2 >= candidates * 2 * 1) by (nonlinear_arith);
    }
    let knn = neg_ones((rows as usize) * (k as usize));
    let avl = neg_ones((rows as usize) * (k as usize) * 4);
    let meta = neg_ones((rows as usize) * 4);
    let link = neg_ones((rows as usize) * (candidates as usize) * 2);
    (
        WgslArgs { data_info, knn_info, avl_info, meta_info, link_info, candidates },
        InitBuffers { knn, avl, meta, link },
    )
}

/// Concatenate the three scratch arrays in the packing order the kernel
/// expects: tree nodes, then meta records, then roster slots.
pub fn concat_scratch(avl: &[i32], meta: &[i32], link: &[i32]) -> (r: Vec<i32>)
    requires
        avl@.len() + meta@.len() + link@.len() <= usize::MAX,
    ensures
        r@ == avl@ + meta@ + link@,
{
    let mut out: Vec<i32> = Vec::new();
    let mut i: usize = 0;
    while i < avl.len()
        invariant
            i <= avl@.len(),
            avl@.len() + meta@.len() + link@.len() <= usize::MAX,
            out@ == avl@.subrange(0, i as int),
        decreases avl@.len() - i,
    {
        out.push(avl[i]);
        i = i + 1;
    }
    let mut j: usize = 0;
    while j < meta.len()
        invariant
            j <= meta@.len(),
            avl@.len() + meta@.len() + link@.len() <= usize::MAX,
            out@ == avl@ + meta@.subrange(0, j as int),
        decreases meta@.len() - j,
    {
        proof {
            assert(out@.push(meta@[j as int]) =~= avl@ + meta@.subrange(0, j + 1));
        }
        out.push(meta[j]);
        j = j + 1;
    }
    let mut h: usize = 0;
    while h < link.len()
        invariant
            h <= link@.len(),
            avl@.len() + meta@.len() + link@.len() <= usize::MAX,
            out@ == avl@ + meta@ + link@.subrange(0, h as int),
        decreases link@.len() - h,
    {
        proof {
            assert(out@.push(link@[h as int]) =~= avl@ + meta@ + link@.subrange(0, h + 1));
        }
        out.push(link[h]);
        h = h + 1;
    }
    proof {
        assert(avl@.subrange(0, avl@.len() as int) =~= avl@);
        assert(meta@.subrange(0, meta@.len() as int) =~= meta@);
        assert(link@.subrange(0, link@.len() as int) =~= link@);
        assert(out@ =~= avl@ + meta@ + link@);
    }
    out
}

/// Start of the meta and roster sub-arrays inside the packed scratch
/// region, derived from the descriptors exactly as at assembly time.
pub fn scratch_offsets(args: &WgslArgs) -> (r: (u32, u32))
    requires
        args.avl_info.offset + args.avl_info.row_strides * args.avl_info.rows
            + args.meta_info.offset + args.meta_info.row_strides * args.meta_info.rows
            <= u32::MAX,
    ensures
        r.0 == args.avl_info.offset + args.avl_info.row_strides * args.avl_info.rows,
        r.1 == r.0 + args.meta_info.offset + args.meta_info.row_strides * args.meta_info.rows,
{
    let meta_offset = args.avl_info.offset + args.avl_info.row_strides * args.avl_info.rows;
    let link_offset = meta_offset + args.meta_info.offset + args.meta_info.row_strides
        * args.meta_info.rows;
    (meta_offset, link_offset)
}

/// Split a read-back scratch region into its three sub-arrays, using the
/// same derived offsets as the packing; fails when the region is shorter
/// than the descriptors declare.
pub fn split_scratch<'a>(args: &WgslArgs, debug: &'a [i32]) -> (r: Result<
    WgslSlices<'a>,
    OutOfBounds,
>)
    requires
        args.avl_info.offset + args.avl_info.row_strides * args.avl_info.rows
            + args.meta_info.offset + args.meta_info.row_strides * args.meta_info.rows
            + args.link_info.offset <= u32::MAX,
    ensures
        ({
            let meta_offset = args.avl_info.offset + args.avl_info.row_strides
                * args.avl_info.rows;
            let link_offset = meta_offset + args.meta_info.offset + args.meta_info.row_strides
                * args.meta_info.rows;
            match r {
                Ok(s) => {
                    &&& args.avl_info.offset <= meta_offset + args.meta_info.offset
                    &&& link_offset + args.link_info.offset <= debug@.len()
                    &&& s.avl@ == debug@.subrange(args.avl_info.offset as int, meta_offset as int)
                    &&& s.meta@ == debug@.subrange(
                        meta_offset + args.meta_info.offset,
                        link_offset as int,
                    )
                    &&& s.link@ == debug@.subrange(
                        link_offset + args.link_info.offset,
                        debug@.len() as int,
                    )
                },
                Err(_) => !(args.avl_info.offset <= meta_offset && meta_offset
                    + args.meta_info.offset <= link_offset && link_offset + args.link_info.offset
                    <= debug@.len()),
            }
        }),
{
    let (meta_offset, link_offset) = scratch_offsets(args);
    let avl_lo = args.avl_info.offset;
    let meta_lo = meta_offset + args.meta_info.offset;
    let link_lo = link_offset + args.link_info.offset;
    if !(avl_lo <= meta_offset && meta_lo <= link_offset && (link_lo as usize) <= debug.len()) {
        return Err(OutOfBounds);
    }
    let avl = vstd::slice::slice_subrange(debug, avl_lo as usize, meta_offset as usize);
    let meta = vstd::slice::slice_subrange(debug, meta_lo as usize, link_offset as usize);
    let link = vstd::slice::slice_subrange(debug, link_lo as usize, debug.len());
    Ok(WgslSlices { avl, meta, link })
}

/// One point's row of a 2D array: the `cols * col_strides` elements
/// from the row's start, or `OutOfBounds` when the row is not inside
/// the buffer.
pub fn row_slice2<'a>(info: &WgslArray2Info, buf: &'a [i32], i: u32) -> (r: Result<
    &'a [i32],
    OutOfBounds,
>)
    ensures
        ({
            let lo = info.offset + i * info.row_strides;
            let hi = lo + info.cols * info.col_strides;
            match r {
                Ok(s) => i < info.rows && hi <= buf@.len() && s@ == buf@.subrange(lo, hi),
                Err(_) => i >= info.rows || hi > buf@.len(),
            }
        }),
{
    if i >= info.rows {
        return Err(OutOfBounds);
    }
    proof {
        assert((i as int) * (info.row_strides as int) <= 0xffff_ffff * 0xffff_ffff)
            by (nonlinear_arith)
            requires
                0 <= i as int <= 0xffff_ffff,
                0 <= info.row_strides as int <= 0xffff_ffff,
        ;
        assert((info.cols as int) * (info.col_strides as int) <= 0xffff_ffff * 0xffff_ffff)
            by (nonlinear_arith)
            requires
                0 <= info.cols as int <= 0xffff_ffff,
                0 <= info.col_strides as int <= 0xffff_ffff,
        ;
    }
    let lo = (info.offset as u128) + (i as u128) * (info.row_strides as u128);
    let hi = lo + (info.cols as u128) * (info.col_strides as u128);
    if hi > buf.len() as u128 {
        return Err(OutOfBounds);
    }
    Ok(vstd::slice::slice_subrange(buf, lo as usize, hi as usize))
}

/// One point's row of a 3D array: the `cols * col_strides` elements
/// from the row's start, or `OutOfBounds` when the row is not inside
/// the buffer.
pub fn row_slice3<'a>(info: &WgslArray3Info, buf: &'a [i32], i: u32) -> (r: Result<
    &'a [i32],
    OutOfBounds,
>)
    ensures
        ({
            let lo = info.offset + i * info.row_strides;
            let hi = lo + info.cols * info.col_strides;
            match r {
                Ok(s) => i < info.rows && hi <= buf@.len() && s@ == buf@.subrange(lo, hi),
                Err(_) => i >= info.rows || hi > buf@.len(),
            }
        }),
{
    if i >= info.rows {
        return Err(OutOfBounds);
    }
    proof {
        assert((i as int) * (info.row_strides as int) <= 0xffff_ffff * 0xffff_ffff)
            by (nonlinear_arith)
            requires
                0 <= i as int <= 0xffff_ffff,
                0 <= info.row_strides as int <= 0xffff_ffff,
        ;
        assert((info.cols as int) * (info.col_strides as int) <= 0xffff_ffff * 0xffff_ffff)
            by (nonlinear_arith)
            requires
                0 <= info.cols as int <= 0xffff_ffff,
                0 <= info.col_strides as int <= 0xffff_ffff,
        ;
    }
    let lo = (info.offset as u128) + (i as u128) * (info.row_strides as u128);
    let hi = lo + (info.cols as u128) * (info.col_strides as u128);
    if hi > buf.len() as u128 {
        return Err(OutOfBounds);
    }
    Ok(vstd::slice::slice_subrange(buf, lo as usize, hi as usize))
}

/// Splitting a packed region at the component lengths gives back exactly
/// the packed components.
pub proof fn lemma_concat_split_roundtrip(a: Seq<i32>, m: Seq<i32>, l: Seq<i32>)
    ensures
        (a + m + l).subrange(0, a.len() as int) == a,
        (a + m + l).subrange(a.len() as int, (a.len() + m.len()) as int) == m,
        (a + m + l).subrange((a.len() + m.len()) as int, (a + m + l).len() as int) == l,
{
    let s = a + m + l;
    assert(s.subrange(0, a.len() as int) =~= a);
    assert(s.subrange(a.len() as int, (a.len() + m.len()) as int) =~= m);
    assert(s.subrange((a.len() + m.len()) as int, s.len() as int) =~= l);
}

} // verus!
