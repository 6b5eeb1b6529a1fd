//! Compressed sparse views of the transaction graph, built by `sprs`.
//!
//! The rows of the matrix are the public keys, its columns the key images.
//! The column view serves the matching, the row view the walk from public
//! keys to key images.

use vstd::prelude::*;
use crate::matching::CscGraph;

verus! {

/// A bipartite graph in compressed sparse row form.  The columns adjacent to
/// row `r` are `col_idx[row_ptr[r] .. row_ptr[r + 1]]`.
pub struct CsrGraph {
    pub num_rows: usize,
    pub num_cols: usize,
    pub row_ptr: Vec<usize>,
    pub col_idx: Vec<u32>,
}

impl CsrGraph {
    /// The row pointers rise from 0 to the number of entries, and every
    /// entry names a column.
    pub open spec fn wf(&self) -> bool {
        &&& self.num_rows <= u32::MAX
        &&& self.num_cols <= u32::MAX
        &&& self.row_ptr@.len() == self.num_rows + 1
        &&& self.row_ptr@[0] == 0
        &&& forall|i: int, j: int|
            0 <= i <= j <= self.num_rows ==> #[trigger] self.row_ptr@[i] <= #[trigger] self.row_ptr@[j]
        &&& self.row_ptr@[self.num_rows as int] == self.col_idx@.len()
        &&& forall|p: int|
            0 <= p < self.col_idx@.len() ==> (#[trigger] self.col_idx@[p]) < self.num_cols
    }

    /// Position `p` of the entries belongs to row `r`.
    pub open spec fn slot(&self, r: int, p: int) -> bool {
        0 <= r < self.num_rows && self.row_ptr@[r] <= p < self.row_ptr@[r + 1]
    }

    /// Row `r` is adjacent to column `c`.
    pub open spec fn has_edge(&self, r: int, c: int) -> bool {
        exists|p: int| #[trigger] self.slot(r, p) && self.col_idx@[p] == c
    }
}

/// The pair (`r`, `c`) occurs among the triplets.
pub open spec fn is_triplet(row_inds: Seq<u32>, col_inds: Seq<u32>, r: int, c: int) -> bool {
    exists|i: int|
        0 <= i < row_inds.len() && i < col_inds.len() && #[trigger] row_inds[i] == r && col_inds[i]
            == c
}

/// What the triplets must be for `sprs` to take them: as many rows as
/// columns and as values, every index within the shape, the shape within
/// what a `u32` can number and such that one more than either side fits a
/// `usize`, and every value 1 (the values of equal pairs are added up, and
/// more than 2^64 pairs do not fit a vector).
pub open spec fn triplets_ok(
    num_rows: usize,
    num_cols: usize,
    row_inds: Seq<u32>,
    col_inds: Seq<u32>,
    data: Seq<u64>,
) -> bool {
    &&& num_rows <= u32::MAX
    &&& num_cols <= u32::MAX
    &&& num_rows < usize::MAX
    &&& num_cols < usize::MAX
    &&& row_inds.len() == col_inds.len()
    &&& data.len() == col_inds.len()
    &&& forall|i: int| 0 <= i < row_inds.len() ==> (#[trigger] row_inds[i]) < num_rows
    &&& forall|i: int| 0 <= i < col_inds.len() ==> (#[trigger] col_inds[i]) < num_cols
    &&& forall|i: int| 0 <= i < data.len() ==> (#[trigger] data[i]) == 1
}

/// [`sprs::TriMatBase::from_triplets`] and [`sprs::TriMatBase::to_csc`]: the
/// matrix of the given shape whose entries are the triplets, column by
/// column.  Equal pairs give one entry, and the rows of a column rise.
#[verifier::external_body]
pub(crate) fn csc_from_triplets(
    num_rows: usize,
    num_cols: usize,
    row_inds: Vec<u32>,
    col_inds: Vec<u32>,
    data: Vec<u64>,
) -> (g: CscGraph)
    requires
        triplets_ok(num_rows, num_cols, row_inds@, col_inds@, data@),
    ensures
        g.wf(),
        g.num_rows == num_rows,
        g.num_cols == num_cols,
        forall|r: int, c: int| #[trigger] g.has_edge(r, c) <==> is_triplet(row_inds@, col_inds@, r, c),
        forall|c: int, p: int, q: int|
            #[trigger] g.slot(c, p) && #[trigger] g.slot(c, q) && p < q ==> g.row_idx@[p]
                < g.row_idx@[q],
{
    let triplets = sprs::TriMatBase::<Vec<u32>, Vec<u64>>::from_triplets(
        (num_rows, num_cols),
        row_inds,
        col_inds,
        data,
    );
    let matrix: sprs::CsMatI<u64, u32, usize> = triplets.to_csc();
    let (col_ptr, row_idx, _) = matrix.into_raw_storage();
    CscGraph { num_rows, num_cols, col_ptr, row_idx }
}

/// [`sprs::TriMatBase::from_triplets`] and [`sprs::TriMatBase::to_csr`]: the
/// matrix of the given shape whose entries are the triplets, row by row.
/// Equal pairs give one entry, and the columns of a row rise.
#[verifier::external_body]
pub(crate) fn csr_from_triplets(
    num_rows: usize,
    num_cols: usize,
    row_inds: Vec<u32>,
    col_inds: Vec<u32>,
    data: Vec<u64>,
) -> (g: CsrGraph)
    requires
        triplets_ok(num_rows, num_cols, row_inds@, col_inds@, data@),
    ensures
        g.wf(),
        g.num_rows == num_rows,
        g.num_cols == num_cols,
        forall|r: int, c: int| #[trigger] g.has_edge(r, c) <==> is_triplet(row_inds@, col_inds@, r, c),
        forall|r: int, p: int, q: int|
            #[trigger] g.slot(r, p) && #[trigger] g.slot(r, q) && p < q ==> g.col_idx@[p]
                < g.col_idx@[q],
{
    let triplets = sprs::TriMatBase::<Vec<u32>, Vec<u64>>::from_triplets(
        (num_rows, num_cols),
        row_inds,
        col_inds,
        data,
    );
    let matrix: sprs::CsMatI<u64, u32, usize> = triplets.to_csr();
    let (row_ptr, col_idx, _) = matrix.into_raw_storage();
    CsrGraph { num_rows, num_cols, row_ptr, col_idx }
}

} // verus!
