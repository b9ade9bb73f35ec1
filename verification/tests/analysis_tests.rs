use conservation_spectral_v2::batch::BatchAnalyzer;
use conservation_spectral_v2::conservation::{AnalysisDone, AnomalyType};
use conservation_spectral_v2::eigen::{EigenDone, EigenMethod, EigenResult};
use conservation_spectral_v2::tracker::ConservationTracker;

#[test]
fn auto_method_depends_on_size() {
    assert_eq!(EigenMethod::Auto.resolve(64), EigenMethod::PowerIteration);
    assert_eq!(EigenMethod::Auto.resolve(65), EigenMethod::Lanczos);
    assert_eq!(EigenMethod::Lanczos.resolve(3), EigenMethod::Lanczos);
    assert_eq!(EigenMethod::PowerIteration.resolve(1000), EigenMethod::PowerIteration);
}

#[test]
fn eigen_result_from_order() {
    // three eigenpairs of length 2, listed in the order 2, 0, 1
    let values = [3.0, 1.0, 2.0];
    let vectors = [10.0, 11.0, 20.0, 21.0, 30.0, 31.0];
    let r = EigenResult::from_order(&values, &vectors, 2, &[1, 2, 0]);
    assert_eq!(r.k, 3);
    assert_eq!(r.n, 2);
    assert_eq!(r.eigenvalues.as_slice(), &[1.0, 2.0, 3.0]);
    assert_eq!(r.eigenvectors.as_slice(), &[20.0, 21.0, 30.0, 31.0, 10.0, 11.0]);
    assert_eq!(r.eigenvector(0), &[20.0, 21.0]);
    assert_eq!(r.eigenvalue(2), 3.0);
    assert_eq!(r.fiedler_value(), 2.0);
    assert_eq!(r.fiedler_vector(), &[30.0, 31.0]);
    let _d = EigenDone;
}

#[test]
fn eigen_result_subset_order() {
    let values = [5.0, 4.0];
    let vectors = [1.0, 2.0, 3.0, 4.0, 5.0, 6.0];
    let r = EigenResult::from_order(&values, &vectors, 3, &[1]);
    assert_eq!(r.k, 1);
    assert_eq!(r.eigenvector(0), &[4.0, 5.0, 6.0]);
}

#[test]
fn anomaly_kinds() {
    assert_eq!(AnomalyType::ConservationViolation, AnomalyType::ConservationViolation);
    assert_ne!(AnomalyType::SpectralOutlier, AnomalyType::StructuralBreak);
    let _d = AnalysisDone;
}

#[test]
fn batch_analyzer_settings() {
    let b = BatchAnalyzer::new();
    assert_eq!(b.n_graphs, 0);
    assert_eq!(b.eigen_method(), EigenMethod::Lanczos);
    assert_eq!(b.eigen_count(100), 5);
    assert_eq!(b.eigen_count(3), 3);
    let b = b.k(3).method(EigenMethod::PowerIteration);
    assert_eq!(b.eigen_count(100), 3);
    assert_eq!(b.eigen_method(), EigenMethod::PowerIteration);
    let d = BatchAnalyzer::default();
    assert_eq!(d.eigen_count(10), 5);
    assert_eq!(d.eigen_method(), EigenMethod::Lanczos);
}

#[test]
fn tracker_keeps_last_window() {
    let mut t = ConservationTracker::new(3, 0.1);
    assert_eq!(t.threshold(), 0.1);
    assert_eq!(t.eigen_method(), EigenMethod::Lanczos);
    assert_eq!(t.record(1.0), None);
    assert_eq!(t.record(2.0), None);
    assert_eq!(t.alert_inputs(), None);
    assert_eq!(t.record(3.0), Some((1.0, 2.0, 3.0)));
    t.set_baseline(2.0);
    assert_eq!(t.alert_inputs(), Some((2.0, 3.0)));
    assert_eq!(t.record(4.0), None);
    assert_eq!(t.history(), &[2.0, 3.0, 4.0]);
    assert_eq!(t.alert_inputs(), Some((2.0, 4.0)));
    t.reset();
    assert!(t.history().is_empty());
    assert_eq!(t.alert_inputs(), None);
    assert_eq!(t.record(5.0), None);
}

#[test]
fn tracker_small_window_never_reaches_baseline() {
    let mut t = ConservationTracker::new(1, 0.5).method(EigenMethod::PowerIteration);
    assert_eq!(t.eigen_method(), EigenMethod::PowerIteration);
    for x in [1.0, 2.0, 3.0, 4.0] {
        assert_eq!(t.record(x), None);
    }
    assert_eq!(t.history(), &[4.0]);
}

#[test]
fn tracker_window_two_still_sees_first_three() {
    let mut t = ConservationTracker::new(2, 0.5);
    assert_eq!(t.record(1.0), None);
    assert_eq!(t.record(2.0), None);
    assert_eq!(t.record(3.0), Some((1.0, 2.0, 3.0)));
    assert_eq!(t.history(), &[2.0, 3.0]);
    t.set_baseline(2.0);
    assert_eq!(t.alert_inputs(), None);
}

#[test]
fn eigen_layout_check() {
    let r = EigenResult::from_order(&[1.0, 2.0], &[1.0, 2.0, 3.0, 4.0], 2, &[0, 1]);
    assert!(r.layout_ok());
    let bad = EigenResult { eigenvalues: r.eigenvalues.clone(), eigenvectors: r.eigenvalues.clone(), n: 2, k: 2 };
    assert!(!bad.layout_ok());
}
