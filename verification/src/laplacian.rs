//! Column-major dense matrices and the kinds of graph Laplacian.

use vstd::prelude::*;
use crate::aligned::AlignedVec;

verus! {

/// Where entry `(i, j)` of an `n`-by-`n` column-major matrix is stored.
pub open spec fn column_major_index(n: int, i: int, j: int) -> int {
    j * n + i
}

/// A square matrix stored column by column: entry `(i, j)` is `data[j * n + i]`.
#[derive(Debug, Clone)]
pub struct ColumnMajorMatrix<S> {
    pub data: AlignedVec<S>,
    pub n: usize,
}

impl<S> ColumnMajorMatrix<S> {
    /// The storage holds exactly `n * n` entries.
    pub open spec fn wf(&self) -> bool {
        &&& self.data@.len() == self.n * self.n
        &&& self.n * self.n <= usize::MAX
    }

    /// Entry `(i, j)`.
    pub open spec fn entry(&self, i: int, j: int) -> S {
        self.data@[column_major_index(self.n as int, i, j)]
    }

    /// Whether the storage holds exactly `n * n` entries (`wf`).
    pub fn layout_ok(&self) -> (r: bool)
        ensures
            r == self.wf(),
    {
        match self.n.checked_mul(self.n) {
            Some(nn) => self.data.len() == nn,
            None => false,
        }
    }

    /// The `n`-by-`n` matrix whose entries are all the zero of `S`.
    pub fn zeroed(n: usize) -> (m: Self)
        where S: bytemuck::Zeroable
        requires
            n * n * vstd::layout::size_of::<S>() <= isize::MAX,
            n * n <= usize::MAX,
        ensures
            m.wf(),
            m.n == n,
            forall|a: int, b: int| 0 <= a < n * n && 0 <= b < n * n ==> #[trigger] m.data@[a] == #[trigger] m.data@[b],
    {
        ColumnMajorMatrix { data: AlignedVec::zeroed(n * n), n }
    }

    /// Entry `(i, j)`.
    pub fn get(&self, i: usize, j: usize) -> (r: &S)
        requires
            self.wf(),
            i < self.n,
            j < self.n,
        ensures
            *r == self.entry(i as int, j as int),
    {
        proof {
            lemma_column_major_index_bounds(self.n as int, i as int, j as int);
        }
        self.data.get(j * self.n + i)
    }

    /// Replaces entry `(i, j)` with `val`.
    pub fn set(&mut self, i: usize, j: usize, val: S)
        requires
            old(self).wf(),
            i < old(self).n,
            j < old(self).n,
        ensures
            final(self).wf(),
            final(self).n == old(self).n,
            final(self).data@ == old(self).data@.update(column_major_index(old(self).n as int, i as int, j as int), val),
    {
        proof {
            lemma_column_major_index_bounds(self.n as int, i as int, j as int);
        }
        let k = j * self.n + i;
        self.data.set(k, val);
    }
}

/// Column-major positions of entries of an `n`-by-`n` matrix lie in `0..n * n`.
pub proof fn lemma_column_major_index_bounds(n: int, i: int, j: int)
    requires
        0 <= i < n,
        0 <= j < n,
    ensures
        0 <= column_major_index(n, i, j) < n * n,
        column_major_index(n, i, j) + 1 <= n * n,
{
    assert(0 <= j * n + i < n * n) by (nonlinear_arith)
        requires
            0 <= i < n,
            0 <= j < n,
    ;
}

/// Distinct entries of an `n`-by-`n` matrix are stored at distinct positions.
pub proof fn lemma_column_major_index_injective(n: int, i1: int, j1: int, i2: int, j2: int)
    requires
        0 <= i1 < n,
        0 <= j1 < n,
        0 <= i2 < n,
        0 <= j2 < n,
        column_major_index(n, i1, j1) == column_major_index(n, i2, j2),
    ensures
        i1 == i2,
        j1 == j2,
{
    vstd::arithmetic::div_mod::lemma_fundamental_div_mod_converse(j1 * n + i1, n, j1, i1);
    vstd::arithmetic::div_mod::lemma_fundamental_div_mod_converse(j2 * n + i2, n, j2, i2);
}

/// Writing entry `(i, j)` (as `set` does) and reading entry `(a, b)` (as `get`
/// does) gives the value written when `(a, b) == (i, j)`, and the old entry otherwise.
pub proof fn lemma_set_then_get<S>(
    before: ColumnMajorMatrix<S>,
    after: ColumnMajorMatrix<S>,
    i: int,
    j: int,
    val: S,
    a: int,
    b: int,
)
    requires
        before.wf(),
        after.n == before.n,
        after.data@ == before.data@.update(column_major_index(before.n as int, i, j), val),
        0 <= i < before.n,
        0 <= j < before.n,
        0 <= a < before.n,
        0 <= b < before.n,
    ensures
        after.wf(),
        after.entry(a, b) == if a == i && b == j {
            val
        } else {
            before.entry(a, b)
        },
{
    lemma_column_major_index_bounds(before.n as int, i, j);
    lemma_column_major_index_bounds(before.n as int, a, b);
    if column_major_index(before.n as int, a, b) == column_major_index(before.n as int, i, j) {
        lemma_column_major_index_injective(before.n as int, a, b, i, j);
    }
}

/// The tiles of `0..n` used by the blocked matrix-vector product: the ranges
/// `[a * tile, min(a * tile + tile, n))`, in order, as many as cover `0..n`.
pub fn tile_ranges(n: usize, tile: usize) -> (r: Vec<(usize, usize)>)
    requires
        tile > 0,
        n + tile <= usize::MAX,
    ensures
        forall|a: int| 0 <= a < r@.len() ==> #[trigger] r@[a] == ((a * tile) as usize, if a * tile + tile <= n {
            (a * tile + tile) as usize
        } else {
            n
        }),
        r@.len() * tile >= n,
        r@.len() > 0 ==> (r@.len() - 1) * tile < n,
{
    let mut r: Vec<(usize, usize)> = Vec::new();
    let mut start: usize = 0;
    assert(0 * tile == 0) by (nonlinear_arith);
    while start < n
        invariant
            tile > 0,
            n + tile <= usize::MAX,
            start == r@.len() * tile,
            start < n + tile,
            r@.len() > 0 ==> (r@.len() - 1) * tile < n,
            forall|a: int| 0 <= a < r@.len() ==> #[trigger] r@[a] == ((a * tile) as usize, if a * tile + tile <= n {
                (a * tile + tile) as usize
            } else {
                n
            }),
        decreases n + tile - start,
    {
        let end = if start + tile <= n { start + tile } else { n };
        proof {
            assert(r@.len() * tile + tile == (r@.len() + 1) * tile) by (nonlinear_arith);
        }
        r.push((start, end));
        start = start + tile;
    }
    r
}

/// Kind of Laplacian to build.
#[derive(Debug, Clone, Copy, PartialEq, Eq, Structural)]
pub enum LaplacianKind {
    Unnormalized,
    SymmetricNormalized,
    RandomWalkNormalized,
}

/// Marker: the Laplacian is built.
pub struct LaplacianBuilt;

} // verus!
