use spatial2d::{Matrix, MatrixScale};

const Y: bool = true;
const N: bool = false;

#[test]
fn test_scale_up_u32_factor_2() {
    // 2x2 matrix
    let original = Matrix::from_elements_2d(vec![vec![1, 2], vec![3, 4]]).unwrap();

    let scaled = original.scale_up(2).unwrap();

    // Expected 4x4 matrix
    let expected = Matrix::from_elements_2d(vec![
        vec![1, 1, 2, 2],
        vec![1, 1, 2, 2],
        vec![3, 3, 4, 4],
        vec![3, 3, 4, 4],
    ]).unwrap();

    assert_eq!(scaled, expected);
}

#[test]
fn test_scale_up_u32_factor_4() {
    // 2x2 matrix
    let original = Matrix::from_elements_2d(vec![vec![1, 2], vec![3, 4]]).unwrap();

    let scaled = original.scale_up(4).unwrap();

    // Expected 4x4 matrix
    let expected = Matrix::from_elements_2d(vec![
        vec![1, 1, 1, 1, 2, 2, 2, 2],
        vec![1, 1, 1, 1, 2, 2, 2, 2],
        vec![1, 1, 1, 1, 2, 2, 2, 2],
        vec![1, 1, 1, 1, 2, 2, 2, 2],
        vec![3, 3, 3, 3, 4, 4, 4, 4],
        vec![3, 3, 3, 3, 4, 4, 4, 4],
        vec![3, 3, 3, 3, 4, 4, 4, 4],
        vec![3, 3, 3, 3, 4, 4, 4, 4],
    ]).unwrap();

    assert_eq!(scaled, expected);
}

#[test]
fn test_scale_down_u32_factor_2() {
    // 4x4 matrix
    let original = Matrix::from_elements_2d(vec![
        vec![1, 1, 2, 2],
        vec![1, 1, 2, 2],
        vec![3, 3, 4, 4],
        vec![3, 3, 4, 4],
    ]).unwrap();

    let scaled = original.scale_down(2).unwrap();

    // Expected 2x2 matrix
    let expected = Matrix::from_elements_2d(vec![vec![1, 2], vec![3, 4]]).unwrap();

    assert_eq!(scaled, expected);
}

#[test]
fn test_scale_down_u32_factor_4() {
    // 8x8 matrix
    let original = Matrix::from_elements_2d(vec![
        vec![1, 1, 1, 1, 2, 2, 2, 2],
        vec![1, 1, 1, 1, 2, 2, 2, 2],
        vec![1, 1, 1, 1, 2, 2, 2, 2],
        vec![1, 1, 1, 1, 2, 2, 2, 2],
        vec![3, 3, 3, 3, 4, 4, 4, 4],
        vec![3, 3, 3, 3, 4, 4, 4, 4],
        vec![3, 3, 3, 3, 4, 4, 4, 4],
        vec![3, 3, 3, 3, 4, 4, 4, 4],
    ]).unwrap();

    let scaled = original.scale_down(4).unwrap();

    // Expected 2x2 matrix
    let expected = Matrix::from_elements_2d(vec![vec![1, 2], vec![3, 4]]).unwrap();

    assert_eq!(scaled, expected);
}

#[test]
fn test_scale_up_down_u32_roundtrip() {
    // Original matrix
    let original = Matrix::from_elements_2d(vec![vec![5, 10], vec![15, 20]]).unwrap();

    // Scale up then down
    let scaled_up = original.scale_up(2).unwrap();
    let scaled_down = scaled_up.scale_down(2).unwrap();

    // Should get back original matrix
    assert_eq!(original, scaled_down);
}

#[test]
fn test_scale_up_bool_factor_2() {
    // 2x2 matrix
    let original = Matrix::from_elements_2d(vec![vec![N, Y], vec![Y, N]]).unwrap();

    let scaled = original.scale_up(2).unwrap();

    // Expected 4x4 matrix
    let expected = Matrix::from_elements_2d(vec![
        vec![N, N, Y, Y],
        vec![N, N, Y, Y],
        vec![Y, Y, N, N],
        vec![Y, Y, N, N],
    ]).unwrap();

    assert_eq!(scaled, expected);
}

#[test]
fn test_scale_up_bool_factor_4() {
    // 2x2 matrix
    let original = Matrix::from_elements_2d(vec![vec![N, Y], vec![Y, N]]).unwrap();

    let scaled = original.scale_up(4).unwrap();

    // Expected 4x4 matrix
    let expected = Matrix::from_elements_2d(vec![
        vec![N, N, N, N, Y, Y, Y, Y],
        vec![N, N, N, N, Y, Y, Y, Y],
        vec![N, N, N, N, Y, Y, Y, Y],
        vec![N, N, N, N, Y, Y, Y, Y],
        vec![Y, Y, Y, Y, N, N, N, N],
        vec![Y, Y, Y, Y, N, N, N, N],
        vec![Y, Y, Y, Y, N, N, N, N],
        vec![Y, Y, Y, Y, N, N, N, N],
    ]).unwrap();

    assert_eq!(scaled, expected);
}

#[test]
fn test_scale_down_bool_factor_2() {
    // 4x4 matrix
    let original = Matrix::from_elements_2d(vec![
        vec![N, N, Y, Y],
        vec![N, N, Y, Y],
        vec![Y, Y, N, N],
        vec![Y, Y, N, N],
    ]).unwrap();

    let scaled = original.scale_down(2).unwrap();

    // Expected 2x2 matrix
    let expected = Matrix::from_elements_2d(vec![vec![N, Y], vec![Y, N]]).unwrap();

    assert_eq!(scaled, expected);
}

#[test]
fn test_scale_down_bool_factor_4() {
    // 8x8 matrix
    let original = Matrix::from_elements_2d(vec![
        vec![N, N, N, N, Y, Y, Y, Y],
        vec![N, N, N, N, Y, Y, Y, Y],
        vec![N, N, N, N, Y, Y, Y, Y],
        vec![N, N, N, N, Y, Y, Y, Y],
        vec![Y, Y, Y, Y, N, N, N, N],
        vec![Y, Y, Y, Y, N, N, N, N],
        vec![Y, Y, Y, Y, N, N, N, N],
        vec![Y, Y, Y, Y, N, N, N, N],
    ]).unwrap();

    let scaled = original.scale_down(4).unwrap();

    // Expected 2x2 matrix
    let expected = Matrix::from_elements_2d(vec![vec![N, Y], vec![Y, N]]).unwrap();

    assert_eq!(scaled, expected);
}

#[test]
fn test_scale_up_down_bool_roundtrip() {
    // Original matrix
    let original = Matrix::from_elements_2d(vec![vec![Y, N], vec![N, Y]]).unwrap();

    // Scale up then down
    let scaled_up = original.scale_up(2).unwrap();
    let scaled_down = scaled_up.scale_down(2).unwrap();

    // Should get back original matrix
    assert_eq!(original, scaled_down);
}

#[test]
fn scale_down_rejects_dimensions_that_the_factor_does_not_divide() {
    let original =
        Matrix::from_elements_2d(vec![vec![1u32, 2, 3], vec![4, 5, 6], vec![7, 8, 9]]).unwrap();
    assert_eq!(original.scale_down(2), Err(spatial2d::GridError::Configuration));
    let flags = Matrix::from_elements_2d(vec![vec![N, Y, N], vec![Y, N, Y], vec![N, Y, N]]).unwrap();
    assert_eq!(flags.scale_down(2), Err(spatial2d::GridError::Configuration));
}

#[test]
fn scale_rejects_factors_that_are_no_power_of_two() {
    let original = Matrix::from_elements_2d(vec![vec![1u32, 2, 3], vec![4, 5, 6], vec![7, 8, 9]])
        .unwrap();
    assert_eq!(original.scale_up(3), Err(spatial2d::GridError::Configuration));
    assert_eq!(original.scale_up(0), Err(spatial2d::GridError::Configuration));
    assert_eq!(original.scale_down(3), Err(spatial2d::GridError::Configuration));
    assert_eq!(original.scale_down(1), Err(spatial2d::GridError::Configuration));
    assert_eq!(original.scale_up(1), Ok(original.clone()));
}

#[test]
fn scale_up_rejects_a_grid_that_would_be_too_large() {
    let original = Matrix::splat(spatial2d::UVec2::new(1024, 1024), 7u32);
    assert_eq!(original.scale_up(1 << 16), Err(spatial2d::GridError::Configuration));
}

#[test]
fn scale_down_samples_the_cell_before_the_centre() {
    let original = Matrix::from_elements_2d(vec![
        vec![0u32, 1, 2, 3],
        vec![4, 5, 6, 7],
        vec![8, 9, 10, 11],
        vec![12, 13, 14, 15],
    ])
    .unwrap();
    assert_eq!(
        original.scale_down(4).unwrap(),
        Matrix::from_elements_2d(vec![vec![5]]).unwrap()
    );
    assert_eq!(
        original.scale_down(2).unwrap(),
        Matrix::from_elements_2d(vec![vec![0, 2], vec![8, 10]]).unwrap()
    );
}

#[test]
fn power_of_two_tells_powers_from_the_rest() {
    for n in [1u32, 2, 4, 8, 1024, 1 << 31] {
        assert!(spatial2d::scaling::power_of_two(n));
    }
    for n in [0u32, 3, 6, 12, 1000, u32::MAX] {
        assert!(!spatial2d::scaling::power_of_two(n));
    }
}
