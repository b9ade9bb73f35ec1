//! Kinds of conservation anomaly and the marker of a finished analysis.

use vstd::prelude::*;

verus! {

/// The kind of an anomaly found at a vertex.
#[derive(Debug, Clone, Copy, PartialEq, Eq, Structural)]
pub enum AnomalyType {
    ConservationViolation,
    SpectralOutlier,
    StructuralBreak,
}

/// Marker: the conservation analysis is complete.
pub struct AnalysisDone;

} // verus!
