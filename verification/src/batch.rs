//! Settings of batch analysis over many graphs or many attributes.

use vstd::prelude::*;
use crate::eigen::EigenMethod;
use crate::laplacian::LaplacianKind;

verus! {

/// Batch analyzer: how many eigenpairs to compute and by which method, and how
/// many graphs the last batch held.
pub struct BatchAnalyzer {
    pub n_graphs: usize,
    k: usize,
    method: EigenMethod,
    laplacian_kind: LaplacianKind,
}

impl BatchAnalyzer {
    /// Number of graphs of the last batch.
    pub closed spec fn last_batch_size(&self) -> nat {
        self.n_graphs as nat
    }

    /// Number of eigenpairs requested.
    pub closed spec fn requested_k(&self) -> nat {
        self.k as nat
    }

    /// Eigendecomposition method.
    pub closed spec fn requested_method(&self) -> EigenMethod {
        self.method
    }

    /// Kind of Laplacian.
    pub closed spec fn requested_kind(&self) -> LaplacianKind {
        self.laplacian_kind
    }

    /// Five eigenpairs by Lanczos iteration on the unnormalized Laplacian.
    pub fn new() -> (b: Self)
        ensures
            b.last_batch_size() == 0,
            b.requested_k() == 5,
            b.requested_method() == EigenMethod::Lanczos,
            b.requested_kind() == LaplacianKind::Unnormalized,
    {
        BatchAnalyzer {
            n_graphs: 0,
            k: 5,
            method: EigenMethod::Lanczos,
            laplacian_kind: LaplacianKind::Unnormalized,
        }
    }

    /// Requests `k` eigenpairs.
    pub fn k(self, k: usize) -> (b: Self)
        ensures
            b.last_batch_size() == self.last_batch_size(),
            b.requested_k() == k,
            b.requested_method() == self.requested_method(),
            b.requested_kind() == self.requested_kind(),
    {
        BatchAnalyzer { k, ..self }
    }

    /// Uses method `m`.
    pub fn method(self, m: EigenMethod) -> (b: Self)
        ensures
            b.last_batch_size() == self.last_batch_size(),
            b.requested_k() == self.requested_k(),
            b.requested_method() == m,
            b.requested_kind() == self.requested_kind(),
    {
        BatchAnalyzer { method: m, ..self }
    }

    /// The number of eigenpairs computed for a graph of `n` vertices: the
    /// requested number, capped at `n`.
    pub fn eigen_count(&self, n: usize) -> (r: usize)
        ensures
            r == if self.requested_k() <= n { self.requested_k() } else { n as nat },
    {
        if self.k <= n {
            self.k
        } else {
            n
        }
    }

    /// The eigendecomposition method.
    pub fn eigen_method(&self) -> (m: EigenMethod)
        ensures
            m == self.requested_method(),
    {
        self.method
    }
}

impl Default for BatchAnalyzer {
    fn default() -> (b: Self)
        ensures
            b.last_batch_size() == 0,
            b.requested_k() == 5,
            b.requested_method() == EigenMethod::Lanczos,
            b.requested_kind() == LaplacianKind::Unnormalized,
    {
        Self::new()
    }
}

} // verus!
