//! Spectral graph analysis toolkit: CSR graphs, column-major matrices,
//! eigen-result bookkeeping and sliding-window conservation tracking.
//!
//! Every numeric element type is generic here: the library manipulates the
//! structure (indices, offsets, layouts, windows) and carries the values.

pub mod aligned;
pub mod conservation;
pub mod batch;
pub mod bits;
pub mod edge_list;
pub mod eigen;
pub mod graph;
pub mod laplacian;
pub mod tracker;

pub use aligned::{AlignedVec, ALIGN_64};
pub use graph::{Graph, GraphBuilder, GraphBuilt, FixedGraph};
pub use laplacian::{ColumnMajorMatrix, LaplacianBuilt, LaplacianKind};
pub use eigen::{EigenDone, EigenMethod, EigenResult};
pub use conservation::{AnalysisDone, AnomalyType};
pub use batch::BatchAnalyzer;
pub use tracker::ConservationTracker;
