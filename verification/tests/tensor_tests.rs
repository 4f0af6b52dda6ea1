use tensor::{ShapeError, Tensor};

#[test]
fn fill_matches_shape_and_value() {
    let t: Tensor<i64> = Tensor::fill(&vec![2, 3], 42);
    assert_eq!(t.shape, vec![2, 3]);
    assert_eq!(t.data.len(), 6);
    assert!(t.data.iter().all(|&v| v == 42));
}

#[test]
fn fill_rank0_is_a_scalar() {
    let t: Tensor<i64> = Tensor::fill(&vec![], 7);
    assert_eq!(t.shape, Vec::<usize>::new());
    assert_eq!(t.data, vec![7]);
}

#[test]
fn fill_zero_extent_is_empty() {
    let t: Tensor<i64> = Tensor::fill(&vec![0, 3], 5);
    assert_eq!(t.data.len(), 0);
    assert_eq!(t.shape, vec![0, 3]);
}

#[test]
fn fill_rank1() {
    let t: Tensor<i64> = Tensor::fill(&vec![4], -9);
    assert_eq!(t.shape, vec![4]);
    assert_eq!(t.data, vec![-9, -9, -9, -9]);
}

#[test]
fn eye_square_matrix_pattern() {
    // Dimension 0 is the fastest axis: (r, c) lives at offset r + c * 3,
    // and the diagonal writes land at offsets 0, 4, 8.
    let t: Tensor<i64> = Tensor::eye(&vec![3, 3]).unwrap();
    assert_eq!(t.shape, vec![3, 3]);
    assert_eq!(t.data, vec![1, 0, 0, 0, 1, 0, 0, 0, 1]);
    for r in 0..3 {
        for c in 0..3 {
            let expected = if r == c { 1 } else { 0 };
            assert_eq!(t.data[r + c * 3], expected);
        }
    }
}

#[test]
fn eye_rank1_marks_every_position() {
    let t: Tensor<i64> = Tensor::eye(&vec![4]).unwrap();
    assert_eq!(t.shape, vec![4]);
    assert_eq!(t.data, vec![1, 1, 1, 1]);
}

#[test]
fn eye_rank3_diagonal() {
    // In shape [2, 2, 2] the strides are 1, 2, 4, so (i, i, i) lands at 7 * i.
    let t: Tensor<i64> = Tensor::eye(&vec![2, 2, 2]).unwrap();
    assert_eq!(t.shape, vec![2, 2, 2]);
    assert_eq!(t.data, vec![1, 0, 0, 0, 0, 0, 0, 1]);
}

#[test]
fn eye_rank0_is_a_zero_scalar() {
    // A rank-0 shape is uniform and gets no diagonal write.
    let t: Tensor<i64> = Tensor::eye(&vec![]).unwrap();
    assert_eq!(t.shape, Vec::<usize>::new());
    assert_eq!(t.data, vec![0]);
}

#[test]
fn eye_zero_extent_is_empty() {
    let t: Tensor<i64> = Tensor::eye(&vec![0, 0]).unwrap();
    assert_eq!(t.shape, vec![0, 0]);
    assert_eq!(t.data.len(), 0);
}

#[test]
fn eye_one_by_one() {
    let t: Tensor<i64> = Tensor::eye(&vec![1, 1]).unwrap();
    assert_eq!(t.data, vec![1]);
}

#[test]
fn eye_nonuniform_is_rejected_without_fault() {
    // The reject policy: unequal extents never reach the diagonal walk, so
    // no out-of-bounds access can happen; the call returns an error instead.
    let r: Result<Tensor<i64>, ShapeError> = Tensor::eye(&vec![2, 3]);
    assert_eq!(r.unwrap_err(), ShapeError::NonUniformDiagonal);
    let r: Result<Tensor<i64>, ShapeError> = Tensor::eye(&vec![3, 3, 1]);
    assert_eq!(r.unwrap_err(), ShapeError::NonUniformDiagonal);
}

#[test]
fn construction_is_idempotent() {
    // Independent calls share no state: building the same tensor twice gives
    // the same data and shape, and reading one back never disturbs another.
    let a: Tensor<i64> = Tensor::fill(&vec![2, 2], 3);
    let mut b: Tensor<i64> = Tensor::fill(&vec![2, 2], 3);
    assert_eq!(a.data, b.data);
    assert_eq!(a.shape, b.shape);
    b.data[0] = 99;
    let c: Tensor<i64> = Tensor::fill(&vec![2, 2], 3);
    assert_eq!(a.data, c.data);

    let d: Tensor<i64> = Tensor::eye(&vec![2, 2]).unwrap();
    let e: Tensor<i64> = Tensor::eye(&vec![2, 2]).unwrap();
    assert_eq!(d.data, e.data);
    assert_eq!(d.shape, e.shape);
}

#[test]
fn other_element_types_work() {
    let t: Tensor<i32> = Tensor::fill(&vec![3], 8);
    assert_eq!(t.data, vec![8, 8, 8]);
    let e: Tensor<i32> = Tensor::eye(&vec![2, 2]).unwrap();
    assert_eq!(e.data, vec![1, 0, 0, 1]);
}
