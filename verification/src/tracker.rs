//! Sliding-window tracking of a conservation ratio over a stream of graphs.

use vstd::prelude::*;
use crate::eigen::EigenMethod;

verus! {

/// The window kept after recording: the last `window` observations of `seen`
/// (all of them when there are fewer).
pub open spec fn last_window<S>(seen: Seq<S>, window: nat) -> Seq<S> {
    if seen.len() > window {
        seen.skip(seen.len() - window)
    } else {
        seen
    }
}

/// The window holds the last `min(seen.len(), window)` observations, in order.
pub proof fn lemma_last_window<S>(seen: Seq<S>, window: nat)
    ensures
        last_window(seen, window).len() == if seen.len() <= window { seen.len() } else { window },
        forall|i: int| 0 <= i < last_window(seen, window).len() ==> #[trigger] last_window(seen, window)[i]
            == seen[seen.len() - last_window(seen, window).len() + i],
{
}

/// Number of observations after which the baseline is established.
pub const BASELINE_OBSERVATIONS: usize = 3;

/// Real-time conservation tracker: keeps the last `window_size` values of the
/// alignment coefficient and a baseline established from the first three.
pub struct ConservationTracker<S> {
    window_size: usize,
    threshold: S,
    method: EigenMethod,
    history: Vec<S>,
    baseline: Option<S>,
}

impl<S> ConservationTracker<S> {
    /// The window never holds more than `window_size` observations.
    #[verifier::type_invariant]
    spec fn inv(self) -> bool {
        self.history@.len() <= self.window_size
    }
}

impl<S: Copy> ConservationTracker<S> {
    /// Size of the window.
    pub closed spec fn window(&self) -> nat {
        self.window_size as nat
    }

    /// Relative change beyond which an alert is raised.
    pub closed spec fn alert_threshold(&self) -> S {
        self.threshold
    }

    /// Eigendecomposition method used for each observation.
    pub closed spec fn tracking_method(&self) -> EigenMethod {
        self.method
    }

    /// The observations in the window, oldest first.
    pub closed spec fn recorded(&self) -> Seq<S> {
        self.history@
    }

    /// The baseline, once established.
    pub closed spec fn baseline_value(&self) -> Option<S> {
        self.baseline
    }

    /// A tracker with an empty window, no baseline, using Lanczos iteration.
    pub fn new(window_size: usize, threshold: S) -> (t: Self)
        ensures
            t.window() == window_size,
            t.alert_threshold() == threshold,
            t.tracking_method() == EigenMethod::Lanczos,
            t.recorded() == Seq::<S>::empty(),
            t.baseline_value() is None,
    {
        ConservationTracker {
            window_size,
            threshold,
            method: EigenMethod::Lanczos,
            history: Vec::new(),
            baseline: None,
        }
    }

    /// Uses method `m` for each observation.
    pub fn method(self, m: EigenMethod) -> (t: Self)
        ensures
            t.window() == self.window(),
            t.alert_threshold() == self.alert_threshold(),
            t.tracking_method() == m,
            t.recorded() == self.recorded(),
            t.baseline_value() == self.baseline_value(),
    {
        proof {
            use_type_invariant(&self);
        }
        ConservationTracker { method: m, ..self }
    }

    /// The observations in the window, oldest first.
    pub fn history(&self) -> (r: &[S])
        ensures
            r@ == self.recorded(),
            r@.len() <= self.window(),
    {
        proof {
            use_type_invariant(self);
        }
        self.history.as_slice()
    }

    /// Forgets every observation and the baseline.
    pub fn reset(&mut self)
        ensures
            final(self).window() == old(self).window(),
            final(self).alert_threshold() == old(self).alert_threshold(),
            final(self).tracking_method() == old(self).tracking_method(),
            final(self).recorded() == Seq::<S>::empty(),
            final(self).baseline_value() is None,
    {
        self.history = Vec::new();
        self.baseline = None;
    }

    /// The relative change threshold.
    pub fn threshold(&self) -> (r: S)
        ensures
            r == self.alert_threshold(),
    {
        self.threshold
    }

    /// The eigendecomposition method.
    pub fn eigen_method(&self) -> (r: EigenMethod)
        ensures
            r == self.tracking_method(),
    {
        self.method
    }

    /// Records the observation `alpha` and trims the window to its size.
    /// While no baseline is established and the window (with `alpha`, before
    /// trimming) holds at least three observations, the first three are returned:
    /// their mean is the baseline, to be given to `set_baseline`.
    pub fn record(&mut self, alpha: S) -> (first_three: Option<(S, S, S)>)
        ensures
            final(self).window() == old(self).window(),
            final(self).alert_threshold() == old(self).alert_threshold(),
            final(self).tracking_method() == old(self).tracking_method(),
            final(self).baseline_value() == old(self).baseline_value(),
            final(self).recorded() == last_window(old(self).recorded().push(alpha), old(self).window()),
            final(self).recorded().len() <= old(self).window(),
            final(self).recorded().len() == if old(self).recorded().len() + 1 <= old(self).window() {
                old(self).recorded().len() + 1
            } else {
                old(self).window()
            },
            final(self).recorded().len() > 0 ==> final(self).recorded().last() == alpha,
            forall|i: int| 0 <= i < final(self).recorded().len() ==> #[trigger] final(self).recorded()[i]
                == old(self).recorded().push(alpha)[old(self).recorded().len() + 1 - final(self).recorded().len() + i],
            first_three == if old(self).baseline_value() is None && old(self).recorded().len() + 1 >= 3 {
                Some((
                    old(self).recorded().push(alpha)[0],
                    old(self).recorded().push(alpha)[1],
                    old(self).recorded().push(alpha)[2],
                ))
            } else {
                None
            },
    {
        let mut history: Vec<S> = Vec::new();
        std::mem::swap(&mut history, &mut self.history);
        let ghost seen = history@.push(alpha);
        history.push(alpha);
        let first_three = if self.baseline.is_none() && history.len() >= BASELINE_OBSERVATIONS {
            Some((history[0], history[1], history[2]))
        } else {
            None
        };
        let window_size = self.window_size;
        let ghost mut dropped: int = 0;
        while history.len() > window_size
            invariant
                0 <= dropped <= seen.len(),
                history@ == seen.skip(dropped),
                dropped > 0 ==> seen.len() - dropped >= window_size,
            decreases history@.len(),
        {
            history.remove(0);
            proof {
                assert(seen.skip(dropped).remove(0) =~= seen.skip(dropped + 1));
                dropped = dropped + 1;
            }
        }
        proof {
            lemma_last_window(seen, window_size as nat);
            if seen.len() > window_size {
                assert(dropped == seen.len() - window_size);
            } else {
                assert(dropped == 0);
                assert(seen.skip(0) =~= seen);
            }
        }
        self.history = history;
        first_three
    }

    /// Establishes the baseline.
    pub fn set_baseline(&mut self, baseline: S)
        requires
            old(self).baseline_value() is None,
        ensures
            final(self).window() == old(self).window(),
            final(self).alert_threshold() == old(self).alert_threshold(),
            final(self).tracking_method() == old(self).tracking_method(),
            final(self).recorded() == old(self).recorded(),
            final(self).baseline_value() == Some(baseline),
    {
        proof {
            use_type_invariant(&*self);
        }
        self.baseline = Some(baseline);
    }

    /// What the alert check compares: the baseline and the latest observation,
    /// once the window holds at least three observations and a baseline exists.
    pub fn alert_inputs(&self) -> (r: Option<(S, S)>)
        ensures
            r == if self.recorded().len() >= 3 && self.baseline_value() is Some {
                Some((self.baseline_value()->0, self.recorded().last()))
            } else {
                None
            },
    {
        if self.history.len() < BASELINE_OBSERVATIONS {
            return None;
        }
        match self.baseline {
            Some(b) => Some((b, self.history[self.history.len() - 1])),
            None => None,
        }
    }
}

} // verus!
