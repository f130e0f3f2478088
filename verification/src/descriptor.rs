//! Strided array descriptors: how a logical 2D or 3D array is laid out
//! inside one flat buffer shared with the compute backend.
use vstd::prelude::*;

verus! {

/// An index lay outside its declared extent.
#[derive(Clone, Copy, Debug, PartialEq, Eq, Structural)]
pub struct OutOfBounds;

/// Raw parts of a strided 2D array: base offset, extents, strides (in
/// elements), and the flat backing data.
pub struct RawArray2<T> {
    pub offset: u32,
    pub shape: [u32; 2],
    pub strides: [u32; 2],
    pub data: Vec<T>,
}

/// Raw parts of a strided 3D array.
pub struct RawArray3<T> {
    pub offset: u32,
    pub shape: [u32; 3],
    pub strides: [u32; 3],
    pub data: Vec<T>,
}

/// Descriptor of a 2D array inside a flat buffer, as the compute kernel
/// receives it: `(i, j)` lives at `offset + i*row_strides + j*col_strides`.
#[derive(Clone, Copy, Debug, PartialEq, Eq, Structural)]
pub struct WgslArray2Info {
    pub offset: u32,
    pub rows: u32,
    pub cols: u32,
    pub row_strides: u32,
    pub col_strides: u32,
}

/// Descriptor of a 3D array inside a flat buffer.
#[derive(Clone, Copy, Debug, PartialEq, Eq, Structural)]
pub struct WgslArray3Info {
    pub offset: u32,
    pub rows: u32,
    pub cols: u32,
    pub voxs: u32,
    pub row_strides: u32,
    pub col_strides: u32,
    pub vox_strides: u32,
}

impl WgslArray2Info {
    /// Smallest element count a buffer must have to back this descriptor.
    pub open spec fn min_len(self) -> int {
        if self.rows == 0 || self.cols == 0 {
            self.offset as int
        } else {
            self.offset + (self.rows - 1) * self.row_strides + (self.cols - 1) * self.col_strides
                + 1
        }
    }

    /// The descriptor spans a range addressable in 32 bits.
    pub open spec fn wf(self) -> bool {
        self.min_len() <= u32::MAX
    }

    /// Row-major layout without overlap: each row's extent fits inside
    /// one row stride, so distinct indices address distinct elements.
    pub open spec fn packed(self) -> bool {
        &&& self.col_strides >= 1
        &&& self.row_strides >= self.cols * self.col_strides
    }

    pub open spec fn spec_address(self, i: u32, j: u32) -> int {
        self.offset + i * self.row_strides + j * self.col_strides
    }

    /// Take the raw parts of a 2D array into a kernel descriptor
    /// beside its flat data.
    pub fn new<T>(raw: RawArray2<T>) -> (r: (Self, Vec<T>))
        ensures
            r.0.offset == raw.offset,
            r.0.rows == raw.shape[0],
            r.0.cols == raw.shape[1],
            r.0.row_strides == raw.strides[0],
            r.0.col_strides == raw.strides[1],
            r.1 == raw.data,
    {
        (
            WgslArray2Info {
                offset: raw.offset,
                rows: raw.shape[0],
                cols: raw.shape[1],
                row_strides: raw.strides[0],
                col_strides: raw.strides[1],
            },
            raw.data,
        )
    }

    /// Element address of `(i, j)`, or `OutOfBounds` when an index
    /// exceeds its extent. In range, the address stays below `min_len`.
    pub fn address(&self, i: u32, j: u32) -> (r: Result<u32, OutOfBounds>)
        requires
            self.wf(),
        ensures
            match r {
                Ok(a) => i < self.rows && j < self.cols && a == self.spec_address(i, j) && a
                    < self.min_len(),
                Err(_) => i >= self.rows || j >= self.cols,
            },
    {
        if i >= self.rows || j >= self.cols {
            return Err(OutOfBounds);
        }
        proof {
            assert(i * self.row_strides <= (self.rows - 1) * self.row_strides) by (nonlinear_arith)
                requires
                    0 <= i <= self.rows - 1,
                    self.row_strides >= 0,
            ;
            assert(j * self.col_strides <= (self.cols - 1) * self.col_strides) by (nonlinear_arith)
                requires
                    0 <= j <= self.cols - 1,
                    self.col_strides >= 0,
            ;
        }
        Ok(self.offset + i * self.row_strides + j * self.col_strides)
    }

    /// Smallest element count a backing buffer must have.
    pub fn len_elems(&self) -> (r: u32)
        requires
            self.wf(),
        ensures
            r == self.min_len(),
    {
        if self.rows == 0 || self.cols == 0 {
            self.offset
        } else {
            self.offset + (self.rows - 1) * self.row_strides + (self.cols - 1) * self.col_strides
                + 1
        }
    }

    /// Smallest byte count a backing buffer must have (4-byte elements).
    pub fn byte_length(&self) -> (r: u64)
        requires
            self.wf(),
        ensures
            r == 4 * self.min_len(),
    {
        4 * (self.len_elems() as u64)
    }
}

impl WgslArray3Info {
    /// Smallest element count a buffer must have to back this descriptor.
    pub open spec fn min_len(self) -> int {
        if self.rows == 0 || self.cols == 0 || self.voxs == 0 {
            self.offset as int
        } else {
            self.offset + (self.rows - 1) * self.row_strides + (self.cols - 1) * self.col_strides
                + (self.voxs - 1) * self.vox_strides + 1
        }
    }

    pub open spec fn wf(self) -> bool {
        self.min_len() <= u32::MAX
    }

    /// Row-major layout without overlap at any of the three levels.
    pub open spec fn packed(self) -> bool {
        &&& self.vox_strides >= 1
        &&& self.col_strides >= self.voxs * self.vox_strides
        &&& self.row_strides >= self.cols * self.col_strides
    }

    pub open spec fn spec_address(self, i: u32, j: u32, v: u32) -> int {
        self.offset + i * self.row_strides + j * self.col_strides + v * self.vox_strides
    }

    /// Take the raw parts of a 3D array into a kernel descriptor
    /// beside its flat data.
    pub fn new<T>(raw: RawArray3<T>) -> (r: (Self, Vec<T>))
        ensures
            r.0.offset == raw.offset,
            r.0.rows == raw.shape[0],
            r.0.cols == raw.shape[1],
            r.0.voxs == raw.shape[2],
            r.0.row_strides == raw.strides[0],
            r.0.col_strides == raw.strides[1],
            r.0.vox_strides == raw.strides[2],
            r.1 == raw.data,
    {
        (
            WgslArray3Info {
                offset: raw.offset,
                rows: raw.shape[0],
                cols: raw.shape[1],
                voxs: raw.shape[2],
                row_strides: raw.strides[0],
                col_strides: raw.strides[1],
                vox_strides: raw.strides[2],
            },
            raw.data,
        )
    }

    /// Element address of `(i, j, v)`, or `OutOfBounds` when an index
    /// exceeds its extent. In range, the address stays below `min_len`.
    pub fn address(&self, i: u32, j: u32, v: u32) -> (r: Result<u32, OutOfBounds>)
        requires
            self.wf(),
        ensures
            match r {
                Ok(a) => i < self.rows && j < self.cols && v < self.voxs && a == self.spec_address(
                    i,
                    j,
                    v,
                ) && a < self.min_len(),
                Err(_) => i >= self.rows || j >= self.cols || v >= self.voxs,
            },
    {
        if i >= self.rows || j >= self.cols || v >= self.voxs {
            return Err(OutOfBounds);
        }
        proof {
            assert(i * self.row_strides <= (self.rows - 1) * self.row_strides) by (nonlinear_arith)
                requires
                    0 <= i <= self.rows - 1,
                    self.row_strides >= 0,
            ;
            assert(j * self.col_strides <= (self.cols - 1) * self.col_strides) by (nonlinear_arith)
                requires
                    0 <= j <= self.cols - 1,
                    self.col_strides >= 0,
            ;
            assert(v * self.vox_strides <= (self.voxs - 1) * self.vox_strides) by (nonlinear_arith)
                requires
                    0 <= v <= self.voxs - 1,
                    self.vox_strides >= 0,
            ;
        }
        Ok(self.offset + i * self.row_strides + j * self.col_strides + v * self.vox_strides)
    }

    /// Smallest element count a backing buffer must have.
    pub fn len_elems(&self) -> (r: u32)
        requires
            self.wf(),
        ensures
            r == self.min_len(),
    {
        if self.rows == 0 || self.cols == 0 || self.voxs == 0 {
            self.offset
        } else {
            self.offset + (self.rows - 1) * self.row_strides + (self.cols - 1) * self.col_strides
                + (self.voxs - 1) * self.vox_strides + 1
        }
    }

    /// Smallest byte count a backing buffer must have (4-byte elements).
    pub fn byte_length(&self) -> (r: u64)
        requires
            self.wf(),
        ensures
            r == 4 * self.min_len(),
    {
        4 * (self.len_elems() as u64)
    }
}

/// In a packed 2D descriptor, distinct in-range index pairs have
/// distinct addresses.
pub proof fn lemma_address2_injective(d: WgslArray2Info, i1: u32, j1: u32, i2: u32, j2: u32)
    requires
        d.packed(),
        i1 < d.rows,
        j1 < d.cols,
        i2 < d.rows,
        j2 < d.cols,
        !(i1 == i2 && j1 == j2),
    ensures
        d.spec_address(i1, j1) != d.spec_address(i2, j2),
{
    lemma_flat2_injective(
        d.row_strides as int,
        d.col_strides as int,
        d.cols as int,
        i1 as int,
        j1 as int,
        i2 as int,
        j2 as int,
    );
}

/// Core arithmetic of 2D injectivity on integer indices.
proof fn lemma_flat2_injective(rs: int, cs: int, cols: int, i1: int, j1: int, i2: int, j2: int)
    requires
        cs >= 1,
        rs >= cols * cs,
        0 <= j1 < cols,
        0 <= j2 < cols,
        0 <= i1,
        0 <= i2,
        !(i1 == i2 && j1 == j2),
    ensures
        i1 * rs + j1 * cs != i2 * rs + j2 * cs,
{
    if i1 == i2 {
        assert(j1 * cs != j2 * cs) by (nonlinear_arith)
            requires
                cs >= 1,
                j1 != j2,
        ;
    } else {
        assert(i1 * rs + j1 * cs != i2 * rs + j2 * cs) by (nonlinear_arith)
            requires
                cs >= 1,
                rs >= cols * cs,
                0 <= j1 < cols,
                0 <= j2 < cols,
                i1 != i2,
                0 <= i1,
                0 <= i2,
        ;
    }
}

/// In a packed 3D descriptor, distinct in-range index triples have
/// distinct addresses.
pub proof fn lemma_address3_injective(
    d: WgslArray3Info,
    i1: u32,
    j1: u32,
    v1: u32,
    i2: u32,
    j2: u32,
    v2: u32,
)
    requires
        d.packed(),
        i1 < d.rows,
        j1 < d.cols,
        v1 < d.voxs,
        i2 < d.rows,
        j2 < d.cols,
        v2 < d.voxs,
        !(i1 == i2 && j1 == j2 && v1 == v2),
    ensures
        d.spec_address(i1, j1, v1) != d.spec_address(i2, j2, v2),
{
    let rs = d.row_strides as int;
    let cs = d.col_strides as int;
    let vs = d.vox_strides as int;
    if i1 == i2 {
        lemma_flat2_injective(cs, vs, d.voxs as int, j1 as int, v1 as int, j2 as int, v2 as int);
    } else {
        // The whole (j, v) offset stays below one row stride.
        assert(j1 * cs + v1 * vs < rs && j2 * cs + v2 * vs < rs) by (nonlinear_arith)
            requires
                vs >= 1,
                cs >= d.voxs * vs,
                rs >= d.cols * cs,
                0 <= j1 < d.cols,
                0 <= j2 < d.cols,
                0 <= v1 < d.voxs,
                0 <= v2 < d.voxs,
        ;
        assert(i1 as int * rs + (j1 * cs + v1 * vs) != i2 as int * rs + (j2 * cs + v2 * vs))
            by (nonlinear_arith)
            requires
                rs >= 1,
                i1 != i2,
                0 <= i1,
                0 <= i2,
                0 <= j1 * cs + v1 * vs < rs,
                0 <= j2 * cs + v2 * vs < rs,
        ;
    }
}

} // verus!
