//! Index bookkeeping of multi-head attention: each head reads a contiguous
//! block of the query, and the same block of every cached key and value.
use vstd::prelude::*;

verus! {

/// `r` is the block of `head_dim` entries of `v` starting at `hs`.
pub open spec fn is_block(r: Seq<usize>, v: Seq<usize>, hs: int, head_dim: int) -> bool {
    &&& r.len() == head_dim
    &&& forall|j: int| 0 <= j < head_dim ==> #[trigger] r[j] == v[hs + j]
}

/// The `head_dim` entries of `v` starting at `hs`; they must all exist.
pub fn head_slice(v: &Vec<usize>, hs: usize, head_dim: usize) -> (r: Vec<usize>)
    requires
        hs + head_dim <= usize::MAX,
        head_dim == 0 || hs + head_dim <= v@.len(),
    ensures
        is_block(r@, v@, hs as int, head_dim as int),
{
    let n = v.len();
    let mut out: Vec<usize> = Vec::new();
    let mut j: usize = 0;
    while j < head_dim
        invariant
            n == v@.len(),
            hs + head_dim <= usize::MAX,
            head_dim == 0 || hs + head_dim <= v@.len(),
            j <= head_dim,
            is_block(out@, v@, hs as int, j as int),
        decreases head_dim - j,
    {
        out.push(v[hs + j]);
        j = j + 1;
    }
    out
}

/// The block `hs..hs + head_dim` of every row, row by row; every row must
/// hold it.
pub fn head_rows(rows: &Vec<Vec<usize>>, hs: usize, head_dim: usize) -> (r: Vec<Vec<usize>>)
    requires
        hs + head_dim <= usize::MAX,
        forall|t: int|
            0 <= t < rows@.len() ==> head_dim == 0 || hs + head_dim <= #[trigger] rows@[t]@.len(),
    ensures
        r@.len() == rows@.len(),
        forall|t: int|
            0 <= t < rows@.len() ==> is_block(#[trigger] r@[t]@, rows@[t]@, hs as int, head_dim as int),
{
    let n = rows.len();
    let mut out: Vec<Vec<usize>> = Vec::new();
    let mut t: usize = 0;
    while t < n
        invariant
            n == rows@.len(),
            t <= n,
            hs + head_dim <= usize::MAX,
            forall|u: int|
                0 <= u < rows@.len() ==> head_dim == 0 || hs + head_dim <= #[trigger] rows@[u]@.len(),
            out@.len() == t,
            forall|u: int|
                0 <= u < t ==> is_block(#[trigger] out@[u]@, rows@[u]@, hs as int, head_dim as int),
        decreases n - t,
    {
        let h = head_slice(&rows[t], hs, head_dim);
        out.push(h);
        t = t + 1;
    }
    out
}

} // verus!
