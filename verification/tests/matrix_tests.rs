use conservation_spectral_v2::aligned::{AlignedVec, ALIGN_64};
use conservation_spectral_v2::laplacian::{tile_ranges, ColumnMajorMatrix, LaplacianKind};

#[test]
fn aligned_vec_basics() {
    let v: AlignedVec<f64> = AlignedVec::new();
    assert_eq!(v.len(), 0);
    assert!(v.is_empty());
    let z: AlignedVec<f64> = AlignedVec::zeroed(5);
    assert_eq!(z.len(), 5);
    assert!(z.as_slice().iter().all(|x| *x == 0.0));
    let z0: AlignedVec<u64> = AlignedVec::zeroed(0);
    assert!(z0.is_empty());
    let mut w = AlignedVec::from_vec(vec![1.0, 2.0, 3.0]);
    assert_eq!(w.as_slice(), &[1.0, 2.0, 3.0]);
    assert_eq!(*w.get(1), 2.0);
    w.set(1, 9.0);
    assert_eq!(w.as_slice(), &[1.0, 9.0, 3.0]);
    let c = w.clone();
    assert_eq!(c.as_slice(), w.as_slice());
    assert_eq!(ALIGN_64, 64);
}

#[test]
fn column_major_layout() {
    let mut m: ColumnMajorMatrix<f64> = ColumnMajorMatrix::zeroed(3);
    assert_eq!(m.n, 3);
    assert_eq!(m.data.len(), 9);
    m.set(0, 1, 4.0);
    m.set(2, 0, 5.0);
    assert_eq!(*m.get(0, 1), 4.0);
    assert_eq!(*m.get(2, 0), 5.0);
    assert_eq!(*m.get(1, 0), 0.0);
    assert_eq!(m.data.as_slice()[1 * 3 + 0], 4.0);
    assert_eq!(m.data.as_slice()[0 * 3 + 2], 5.0);
    m.set(0, 1, -1.0);
    assert_eq!(*m.get(0, 1), -1.0);
}

#[test]
fn tiles_cover_range() {
    assert_eq!(tile_ranges(10, 4), vec![(0, 4), (4, 8), (8, 10)]);
    assert_eq!(tile_ranges(8, 4), vec![(0, 4), (4, 8)]);
    assert_eq!(tile_ranges(3, 64), vec![(0, 3)]);
    assert_eq!(tile_ranges(0, 64), Vec::<(usize, usize)>::new());
}

#[test]
fn laplacian_kinds_differ() {
    assert_ne!(LaplacianKind::Unnormalized, LaplacianKind::SymmetricNormalized);
    assert_eq!(LaplacianKind::RandomWalkNormalized, LaplacianKind::RandomWalkNormalized);
}

#[test]
fn aligned_vec_mutable_slice() {
    let mut v = AlignedVec::from_vec(vec![1u64, 2, 3]);
    v.as_mut_slice()[2] = 7;
    assert_eq!(v.as_slice(), &[1, 2, 7]);
}

#[test]
fn matrix_layout_check() {
    let m: ColumnMajorMatrix<f64> = ColumnMajorMatrix::zeroed(2);
    assert!(m.layout_ok());
    let bad = ColumnMajorMatrix { data: AlignedVec::from_vec(vec![0.0; 3]), n: 2 };
    assert!(!bad.layout_ok());
}

#[test]
fn aligned_vec_clone_keeps_length_and_elements() {
    let v = AlignedVec::from_vec(vec![String::from("a"), String::from("bc")]);
    let w = v.clone();
    assert_eq!(w.len(), v.len());
    assert_eq!(w.as_slice(), v.as_slice());
    let z: AlignedVec<f64> = AlignedVec::zeroed(4);
    assert_eq!(z.clone().len(), 4);
}
