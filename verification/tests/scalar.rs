use pikarust_core::nnue::simd::scalar::Scalar;
use pikarust_core::nnue::simd::{MAX_NNZ, SimdOps};

#[test]
fn test_scalar_vec_add_i16() {
    let mut a = [1i16, 2, 3, 4, -100, i16::MAX];
    let b = [10i16, 20, 30, 40, 100, 1];
    Scalar::vec_add_i16(&mut a, &b);
    assert_eq!(a, [11, 22, 33, 44, 0, i16::MIN]);
}

#[test]
fn test_scalar_vec_sub_i16() {
    let mut a = [10i16, 20, 30, 0, i16::MIN];
    let b = [1i16, 2, 3, 1, 1];
    Scalar::vec_sub_i16(&mut a, &b);
    assert_eq!(a, [9, 18, 27, -1, i16::MAX]);
}

#[test]
fn test_scalar_transform_features() {
    let mut psq = [0i16; 1024];
    let mut threat = [0i16; 1024];
    psq[0] = 100;
    threat[0] = 50;
    psq[512] = 200;
    threat[512] = 55;

    let mut output = [0u8; 512];
    Scalar::transform_features(&psq, &threat, &mut output);
    assert_eq!(output[0], 74);
}

#[test]
fn test_scalar_transform_features_negative() {
    let mut psq = [0i16; 1024];
    let threat = [0i16; 1024];
    psq[0] = -100;
    psq[512] = 200;

    let mut output = [0u8; 512];
    Scalar::transform_features(&psq, &threat, &mut output);
    assert_eq!(output[0], 0);
}

#[test]
fn test_scalar_clipped_relu() {
    let input = [0i32, 64, 128, -10, 127 * 64 + 100, 8128];
    let mut output = [0u8; 6];
    Scalar::clipped_relu(&input, &mut output, 6);
    assert_eq!(output, [0, 1, 2, 0, 127, 127]);
}

#[test]
fn test_scalar_sqr_clipped_relu() {
    let input = [0i32, -10, 127 * 64];
    let mut output = [0u8; 3];
    Scalar::sqr_clipped_relu(&input, &mut output, 6);
    assert_eq!(output[0], 0);
    assert_eq!(output[1], 0);
    assert_eq!(output[2], 126);
}

#[test]
fn test_scalar_sqr_clipped_relu_negative_input_matches_cpp() {
    let shift = 6u32;
    let input = [-8128i32, 8128, 0, -100, 100];
    let mut output = [0u8; 5];
    Scalar::sqr_clipped_relu(&input, &mut output, shift);
    assert_eq!(output[0], 126, "input -8128 with shift=6 should produce 126");
    assert_eq!(output[1], 126, "input 8128 with shift=6 should produce 126");
    assert_eq!(output[2], 0, "input 0 should produce 0");
    assert_eq!(output[3], output[4], "sqr_clipped_relu must be symmetric around zero");
}

#[test]
fn test_scalar_affine_propagate() {
    let input = [0u8, 2, 0, 3];
    let weights: Vec<i8> = vec![1, 2, 3, 4, 5, 6, 7, 8];
    let biases = [10i32, 20];
    let mut output = [0i32; 2];
    Scalar::affine_propagate(&input, &weights, &biases, &mut output, 4, 2);
    assert_eq!(output[0], 37);
    assert_eq!(output[1], 52);
}

#[test]
fn test_scalar_horizontal_sum() {
    let data = [1i32, 2, 3, 4, 5];
    assert_eq!(Scalar::horizontal_sum_i32(&data), 15);
}

#[test]
fn test_scalar_find_nnz() {
    let mut input = [0u8; 16];
    input[1] = 5;
    input[8] = 1;
    input[11] = 2;
    let mut nnz = [0usize; MAX_NNZ];
    let count = Scalar::find_nnz(&input, &mut nnz);
    assert_eq!(&nnz[..count], &[0, 2]);
}

#[test]
fn test_scalar_affine_sparse() {
    let input = [0u8, 2, 0, 3, 0, 0, 0, 0];
    let weights: Vec<i8> = vec![1, 2, 3, 4, 5, 6, 7, 8, 0, 0, 0, 0, 0, 0, 0, 0];
    let biases = [10i32, 20];
    let mut output = [0i32; 2];
    let nnz = vec![0usize];
    Scalar::affine_propagate_sparse(&input, &weights, &biases, &mut output, 2, &nnz);
    assert_eq!(output[0], 37);
    assert_eq!(output[1], 52);
}

#[test]
fn scalar_widening_and_wrapping_i32() {
    let mut acc = [i16::MAX, 0, -5];
    Scalar::vec_add_i16_widening(&mut acc, &[1, -128, 5]);
    assert_eq!(acc, [i16::MIN, -128, 0]);
    Scalar::vec_sub_i16_widening(&mut acc, &[1, -128, 5]);
    assert_eq!(acc, [i16::MAX, 0, -5]);
    let mut a = [i32::MAX, 5];
    Scalar::vec_add_i32(&mut a, &[1, -6]);
    assert_eq!(a, [i32::MIN, -1]);
    Scalar::vec_sub_i32(&mut a, &[1, -1]);
    assert_eq!(a, [i32::MAX, 0]);
    assert_eq!(Scalar::horizontal_sum_i32(&[i32::MAX, 1]), i32::MIN);
}
