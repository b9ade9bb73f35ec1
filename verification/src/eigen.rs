//! Bookkeeping of eigendecompositions: the choice of method and the layout of
//! eigenvalues and eigenvectors.

use vstd::prelude::*;
use crate::aligned::AlignedVec;

verus! {

/// Method for eigendecomposition.
#[derive(Debug, Clone, Copy, PartialEq, Eq, Structural)]
pub enum EigenMethod {
    /// Power iteration with deflation, for few eigenpairs of small graphs.
    PowerIteration,
    /// Lanczos iteration, for larger sparse graphs.
    Lanczos,
    /// Chosen from the size of the graph.
    Auto,
}

/// Largest number of vertices for which `Auto` picks power iteration.
pub const AUTO_POWER_ITERATION_MAX_VERTICES: usize = 64;

impl EigenMethod {
    /// The method actually run on a graph of `n` vertices: `Auto` becomes
    /// Lanczos above 64 vertices and power iteration otherwise; an explicit
    /// method is kept.
    pub fn resolve(self, n: usize) -> (m: EigenMethod)
        ensures
            m != EigenMethod::Auto,
            self != EigenMethod::Auto ==> m == self,
            self == EigenMethod::Auto ==> (m == EigenMethod::Lanczos <==> n > 64),
    {
        match self {
            EigenMethod::Auto => {
                if n > AUTO_POWER_ITERATION_MAX_VERTICES {
                    EigenMethod::Lanczos
                } else {
                    EigenMethod::PowerIteration
                }
            },
            m => m,
        }
    }
}

/// Result of an eigendecomposition: `k` eigenvalues in ascending order and their
/// eigenvectors stored column-major (component `i` of eigenvector `j` is
/// `eigenvectors[j * n + i]`).
#[derive(Debug, Clone)]
pub struct EigenResult<S> {
    pub eigenvalues: AlignedVec<S>,
    pub eigenvectors: AlignedVec<S>,
    pub n: usize,
    pub k: usize,
}

impl<S> EigenResult<S> {
    /// The storage holds `k` eigenvalues and `k` vectors of length `n`.
    pub open spec fn wf(&self) -> bool {
        &&& self.eigenvalues@.len() == self.k
        &&& self.eigenvectors@.len() == self.k * self.n
        &&& self.k * self.n <= usize::MAX
    }

    /// Eigenvector `j`.
    pub open spec fn column(&self, j: int) -> Seq<S> {
        self.eigenvectors@.subrange(j * self.n, j * self.n + self.n)
    }

    /// Lists the eigenpairs `(values[order[a]], column order[a] of vectors)` for
    /// `a` in `0..order.len()`: how a decomposition is reordered once its
    /// eigenvalues are sorted.
    pub fn from_order(values: &[S], vectors: &[S], n: usize, order: &[usize]) -> (r: Self)
        where S: Copy
        requires
            vectors@.len() == values@.len() * n,
            forall|a: int| 0 <= a < order@.len() ==> #[trigger] order@[a] < values@.len(),
            order@.len() * n <= usize::MAX,
        ensures
            r.wf(),
            r.n == n,
            r.k == order@.len(),
            forall|a: int| 0 <= a < order@.len() ==> #[trigger] r.eigenvalues@[a] == values@[order@[a] as int],
            forall|a: int| 0 <= a < order@.len() ==> #[trigger] r.column(a)
                == vectors@.subrange(order@[a] * n, order@[a] * n + n),
            forall|a: int, i: int| 0 <= a < order@.len() && 0 <= i < n ==> r.eigenvectors@[a * n + i]
                == #[trigger] vectors@[order@[a] * n + i],
    {
        let k = order.len();
        let vlen = vectors.len();
        let mut vals: Vec<S> = Vec::new();
        let mut vecs: Vec<S> = Vec::new();
        for a in 0..k
            invariant
                k == order@.len(),
                k * n <= usize::MAX,
                vlen == vectors@.len(),
                vectors@.len() == values@.len() * n,
                forall|b: int| 0 <= b < order@.len() ==> #[trigger] order@[b] < values@.len(),
                vals@.len() == a,
                vecs@.len() == a * n,
                forall|b: int| 0 <= b < a ==> #[trigger] vals@[b] == values@[order@[b] as int],
                forall|b: int, i: int| 0 <= b < a && 0 <= i < n ==> vecs@[b * n + i]
                    == #[trigger] vectors@[order@[b] * n + i],
        {
            let old_idx = order[a];
            vals.push(values[old_idx]);
            proof {
                lemma_column_bounds(values@.len() as int, n as int, old_idx as int);
                lemma_column_bounds(k as int, n as int, a as int);
            }
            let src = old_idx * n;
            let ghost before = vecs@;
            for i in 0..n
                invariant
                    vecs@.len() == a * n + i,
                    vlen == vectors@.len(),
                    vectors@.len() == values@.len() * n,
                    src == old_idx * n,
                    src + n <= vectors@.len(),
                    a * n + n <= usize::MAX,
                    before.len() == a * n,
                    forall|x: int| 0 <= x < a * n ==> #[trigger] vecs@[x] == before[x],
                    forall|x: int| 0 <= x < i ==> vecs@[a * n + x] == #[trigger] vectors@[src + x],
            {
                vecs.push(vectors[src + i]);
            }
            proof {
                assert forall|b: int, i: int| 0 <= b < a + 1 && 0 <= i < n implies vecs@[b * n + i]
                    == #[trigger] vectors@[order@[b] * n + i] by {
                    if b < a {
                        lemma_column_bounds(a as int, n as int, b);
                        assert(b * n + i < a * n);
                        assert(vecs@[b * n + i] == before[b * n + i]);
                    } else {
                        assert(vecs@[a * n + i] == vectors@[src + i]);
                    }
                }
                assert((a + 1) * n == a * n + n) by (nonlinear_arith);
            }
        }
        let r = EigenResult {
            eigenvalues: AlignedVec::from_vec(vals),
            eigenvectors: AlignedVec::from_vec(vecs),
            n,
            k,
        };
        proof {
            assert forall|a: int| 0 <= a < order@.len() implies #[trigger] r.column(a)
                == vectors@.subrange(order@[a] * n, order@[a] * n + n) by {
                lemma_column_bounds(k as int, n as int, a);
                lemma_column_bounds(values@.len() as int, n as int, order@[a] as int);
                assert forall|i: int| 0 <= i < n implies r.column(a)[i] == vectors@.subrange(order@[a] * n, order@[a] * n + n)[i] by {
                    assert(r.eigenvectors@[a * n + i] == vectors@[order@[a] * n + i]);
                }
                assert(r.column(a) =~= vectors@.subrange(order@[a] * n, order@[a] * n + n));
            }
        }
        r
    }

    /// Whether the storage holds `k` eigenvalues and `k` vectors of length `n` (`wf`).
    pub fn layout_ok(&self) -> (r: bool)
        ensures
            r == self.wf(),
    {
        match self.k.checked_mul(self.n) {
            Some(kn) => self.eigenvalues.len() == self.k && self.eigenvectors.len() == kn,
            None => false,
        }
    }

    /// Eigenvector `j`.
    pub fn eigenvector(&self, j: usize) -> (r: &[S])
        requires
            self.wf(),
            j < self.k,
        ensures
            r@ == self.column(j as int),
            r@.len() == self.n,
            forall|i: int| 0 <= i < self.n ==> #[trigger] r@[i] == self.eigenvectors@[j * self.n + i],
    {
        proof {
            lemma_column_bounds(self.k as int, self.n as int, j as int);
        }
        let start = j * self.n;
        vstd::slice::slice_subrange(self.eigenvectors.as_slice(), start, start + self.n)
    }

    /// Eigenvalue `j`.
    pub fn eigenvalue(&self, j: usize) -> (r: S)
        where S: Copy
        requires
            self.wf(),
            j < self.k,
        ensures
            r == self.eigenvalues@[j as int],
    {
        *self.eigenvalues.get(j)
    }

    /// The Fiedler value: the second smallest eigenvalue.
    pub fn fiedler_value(&self) -> (r: S)
        where S: Copy
        requires
            self.wf(),
            self.k >= 2,
        ensures
            r == self.eigenvalues@[1],
    {
        *self.eigenvalues.get(1)
    }

    /// The Fiedler vector: the eigenvector of the second smallest eigenvalue.
    pub fn fiedler_vector(&self) -> (r: &[S])
        requires
            self.wf(),
            self.k >= 2,
        ensures
            r@ == self.column(1),
            r@.len() == self.n,
            forall|i: int| 0 <= i < self.n ==> #[trigger] r@[i] == self.eigenvectors@[self.n + i],
    {
        self.eigenvector(1)
    }
}

/// Eigenvectors are stored column-major: component `i` of eigenvector `j` is
/// `eigenvectors[j * n + i]`, and eigenvector `j` has `n` components.
pub proof fn lemma_eigenvector_layout<S>(r: EigenResult<S>, j: int, i: int)
    requires
        r.wf(),
        0 <= j < r.k,
        0 <= i < r.n,
    ensures
        r.column(j).len() == r.n,
        r.column(j)[i] == r.eigenvectors@[j * r.n + i],
{
    lemma_column_bounds(r.k as int, r.n as int, j);
}

/// Vector `j` of `k` column-major vectors of length `n` lies in `0..k * n`.
pub proof fn lemma_column_bounds(k: int, n: int, j: int)
    requires
        0 <= j < k,
        0 <= n,
    ensures
        0 <= j * n,
        j * n + n <= k * n,
{
    assert(0 <= j * n && j * n + n <= k * n) by (nonlinear_arith)
        requires
            0 <= j < k,
            0 <= n,
    ;
}

/// Marker: the eigendecomposition is complete.
pub struct EigenDone;

} // verus!
