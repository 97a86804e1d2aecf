use pikarust_core::nnue::simd::scalar::Scalar;
use pikarust_core::nnue::simd::{Dispatch, MAX_NNZ, SimdBackend, SimdOps, detect_backend};

fn supported_dispatches() -> Vec<Dispatch> {
    [SimdBackend::Scalar, SimdBackend::Avx2, SimdBackend::Neon]
        .into_iter()
        .filter(|backend| backend.is_supported())
        .map(Dispatch::with_backend)
        .collect()
}

#[test]
fn test_detect_backend() {
    let backend = detect_backend();
    assert!(backend.is_supported());
}

#[test]
fn test_dispatch_vec_add_i16() {
    let d = Dispatch::new();
    let mut a = [1i16, 2, 3, 4, 5, 6, 7, 8];
    let b = [10i16, 20, 30, 40, 50, 60, 70, 80];
    d.vec_add_i16(&mut a, &b);
    assert_eq!(a, [11, 22, 33, 44, 55, 66, 77, 88]);
}

#[test]
fn test_dispatch_vec_sub_i16() {
    let d = Dispatch::new();
    let mut a = [10i16, 20, 30, 40, 50, 60, 70, 80];
    let b = [1i16, 2, 3, 4, 5, 6, 7, 8];
    d.vec_sub_i16(&mut a, &b);
    assert_eq!(a, [9, 18, 27, 36, 45, 54, 63, 72]);
}

#[test]
fn test_dispatch_transform_features() {
    let d = Dispatch::new();
    let mut psq = [0i16; 1024];
    let mut threat = [0i16; 1024];
    psq[0] = 100;
    threat[0] = 50;
    psq[512] = 200;
    threat[512] = 55;

    let mut output = [0u8; 512];
    d.transform_features(&psq, &threat, &mut output);
    assert_eq!(output[0], 74);
}

#[test]
fn test_dispatch_clipped_relu() {
    let d = Dispatch::new();
    let input = [0i32, 64, 128, -10, 127 * 64 + 100, 8128];
    let mut output = [0u8; 6];
    d.clipped_relu(&input, &mut output, 6);
    assert_eq!(output, [0, 1, 2, 0, 127, 127]);
}

#[test]
fn test_dispatch_sqr_clipped_relu() {
    let d = Dispatch::new();
    let input = [0i32, -10, 127 * 64];
    let mut output = [0u8; 3];
    d.sqr_clipped_relu(&input, &mut output, 6);
    assert_eq!(output[0], 0);
    assert_eq!(output[1], 0);
    assert_eq!(output[2], 126);
}

#[test]
fn test_dispatch_affine_propagate() {
    let d = Dispatch::new();
    let input = [0u8, 2, 0, 3];
    let weights: Vec<i8> = vec![1, 2, 3, 4, 5, 6, 7, 8];
    let biases = [10i32, 20];
    let mut output = [0i32; 2];
    d.affine_propagate(&input, &weights, &biases, &mut output, 4, 2);
    assert_eq!(output[0], 37);
    assert_eq!(output[1], 52);
}

#[test]
fn test_dispatch_horizontal_sum() {
    let d = Dispatch::new();
    let data = [1i32, 2, 3, 4, 5];
    assert_eq!(d.horizontal_sum_i32(&data), 15);
}

#[test]
fn test_dispatch_find_nnz() {
    let d = Dispatch::new();
    let mut input = [0u8; 16];
    input[1] = 5;
    input[8] = 1;
    input[11] = 2;
    let mut nnz = [0usize; MAX_NNZ];
    let count = d.find_nnz(&input, &mut nnz);
    assert_eq!(&nnz[..count], &[0, 2]);
}

#[test]
fn test_dispatch_backend_display() {
    let d = Dispatch::new();
    let s = d.backend().name();
    assert!(!s.is_empty());
}

#[test]
fn backends_match_scalar_for_unaligned_vectors_and_wrapping_tails() {
    for d in supported_dispatches() {
        for len in [0, 1, 7, 8, 15, 16, 17, 31, 32, 33, 63, 64, 65] {
            let mut actual = vec![i16::MAX; len + 2];
            let mut expected = actual.clone();
            let weights = vec![1_i8; len + 2];
            d.vec_add_i16_widening(&mut actual[1..=len], &weights[1..=len]);
            Scalar::vec_add_i16_widening(&mut expected[1..=len], &weights[1..=len]);
            assert_eq!(actual, expected, "{:?} length {len}", d.backend());
            d.vec_sub_i16_widening(&mut actual[1..=len], &weights[1..=len]);
            Scalar::vec_sub_i16_widening(&mut expected[1..=len], &weights[1..=len]);
            assert_eq!(actual, expected, "{:?} length {len}", d.backend());
            let data = vec![i32::MAX; len + 2];
            assert_eq!(
                d.horizontal_sum_i32(&data[1..=len]),
                Scalar::horizontal_sum_i32(&data[1..=len])
            );
        }
    }
}

#[test]
fn backends_match_scalar_for_activation_shifts() {
    let input: Vec<_> = (0..65).map(|i| i * 811 - 16384).collect();
    for d in supported_dispatches() {
        for shift in [0, 1, 6, 12, 28] {
            let mut actual = [42; 67];
            let mut expected = actual;
            d.clipped_relu(&input, &mut actual[1..66], shift);
            Scalar::clipped_relu(&input, &mut expected[1..66], shift);
            assert_eq!(actual, expected, "{:?} shift {shift}", d.backend());
            d.sqr_clipped_relu(&input, &mut actual[1..66], shift);
            Scalar::sqr_clipped_relu(&input, &mut expected[1..66], shift);
            assert_eq!(actual, expected, "{:?} shift {shift}", d.backend());
        }
    }
}

#[test]
fn backends_match_scalar_for_extreme_feature_sums() {
    let values = [i16::MIN, i16::MAX, -100, 0, 100, 255];
    let psq: Vec<_> = (0..1024).map(|i| values[i % values.len()]).collect();
    let threat: Vec<_> = (0..1024).map(|i| values[(i / values.len()) % values.len()]).collect();
    let mut expected = [0; 512];
    Scalar::transform_features(&psq, &threat, &mut expected);
    for d in supported_dispatches() {
        let mut actual = [0; 512];
        d.transform_features(&psq, &threat, &mut actual);
        assert_eq!(actual, expected, "{:?}", d.backend());
    }
}

#[test]
fn backends_match_scalar_for_all_vector_operations() {
    let values16 = [i16::MIN, i16::MAX, -128, -1, 0, 1, 127];
    let values32 = [i32::MIN, i32::MAX, -1, 0, 1];
    for d in supported_dispatches() {
        for len in [0, 1, 7, 8, 15, 16, 17, 31, 32, 33, 65, 1024] {
            let mut actual16: Vec<_> = (0..len + 2).map(|i| values16[i % values16.len()]).collect();
            let mut expected16 = actual16.clone();
            let rhs16: Vec<_> = (0..len + 2).map(|i| values16[(i + 3) % values16.len()]).collect();
            let weights: Vec<_> = (0..len + 2).map(|i| (i * 97) as i8).collect();
            let range = 1..=len;
            d.vec_add_i16(&mut actual16[range.clone()], &rhs16[range.clone()]);
            Scalar::vec_add_i16(&mut expected16[range.clone()], &rhs16[range.clone()]);
            assert_eq!(actual16, expected16, "{:?} add length {len}", d.backend());
            d.vec_sub_i16(&mut actual16[range.clone()], &rhs16[range.clone()]);
            Scalar::vec_sub_i16(&mut expected16[range.clone()], &rhs16[range.clone()]);
            assert_eq!(actual16, expected16, "{:?} sub length {len}", d.backend());
            d.vec_add_i16_widening(&mut actual16[range.clone()], &weights[range.clone()]);
            Scalar::vec_add_i16_widening(&mut expected16[range.clone()], &weights[range.clone()]);
            assert_eq!(actual16, expected16, "{:?} widen add length {len}", d.backend());
            d.vec_sub_i16_widening(&mut actual16[range.clone()], &weights[range.clone()]);
            Scalar::vec_sub_i16_widening(&mut expected16[range.clone()], &weights[range.clone()]);
            assert_eq!(actual16, expected16, "{:?} widen sub length {len}", d.backend());

            let mut actual32: Vec<_> = (0..len + 2).map(|i| values32[i % values32.len()]).collect();
            let mut expected32 = actual32.clone();
            let rhs32: Vec<_> = (0..len + 2).map(|i| values32[(i + 2) % values32.len()]).collect();
            d.vec_add_i32(&mut actual32[range.clone()], &rhs32[range.clone()]);
            Scalar::vec_add_i32(&mut expected32[range.clone()], &rhs32[range.clone()]);
            assert_eq!(actual32, expected32, "{:?} add length {len}", d.backend());
            assert_eq!(
                d.horizontal_sum_i32(&actual32[range.clone()]),
                Scalar::horizontal_sum_i32(&expected32[range.clone()]),
            );
            d.vec_sub_i32(&mut actual32[range.clone()], &rhs32[range.clone()]);
            Scalar::vec_sub_i32(&mut expected32[range.clone()], &rhs32[range]);
            assert_eq!(actual32, expected32, "{:?} sub length {len}", d.backend());
        }
    }
}

#[test]
fn backends_match_scalar_for_unaligned_transform_and_extreme_activations() {
    let values = [i16::MIN, i16::MAX, -100, 0, 100, 255];
    let psq: Vec<_> = (0..1026).map(|i| values[i % values.len()]).collect();
    let threat: Vec<_> = (0..1026).map(|i| values[(i / values.len()) % values.len()]).collect();
    let extremes = [i32::MIN, i32::MAX, -8128, -1, 0, 1, 8128];
    let input: Vec<_> = (0..67).map(|i| extremes[i % extremes.len()]).collect();
    for d in supported_dispatches() {
        let mut actual = [42; 514];
        let mut expected = actual;
        d.transform_features(&psq[1..1025], &threat[1..1025], &mut actual[1..513]);
        Scalar::transform_features(&psq[1..1025], &threat[1..1025], &mut expected[1..513]);
        assert_eq!(actual, expected, "{:?} transform", d.backend());
        for shift in [0, 1, 6, 12, 28, 31] {
            d.clipped_relu(&input[1..66], &mut actual[1..66], shift);
            Scalar::clipped_relu(&input[1..66], &mut expected[1..66], shift);
            assert_eq!(actual, expected, "{:?} activation {shift}", d.backend());
            if shift <= 28 {
                d.sqr_clipped_relu(&input[1..66], &mut actual[1..66], shift);
                Scalar::sqr_clipped_relu(&input[1..66], &mut expected[1..66], shift);
                assert_eq!(actual, expected, "{:?} squared {shift}", d.backend());
            }
        }
    }
}

#[test]
fn backends_match_scalar_for_unaligned_dense_and_sparse_affine() {
    for d in supported_dispatches() {
        for (in_dim, out_dim) in [(0, 0), (0, 32), (3, 17), (31, 32), (32, 1), (64, 32), (1024, 32)] {
            let input: Vec<_> =
                (0..in_dim + 2).map(|i| if i % 5 == 0 { 0 } else { (i * 97) as u8 }).collect();
            let weights: Vec<_> = (0..in_dim * out_dim + 2).map(|i| (i * 71) as i8).collect();
            let biases: Vec<_> =
                (0..out_dim + 2).map(|i| if i % 2 == 0 { i32::MAX } else { i32::MIN }).collect();
            let input = &input[1..=in_dim];
            let weights = &weights[1..=in_dim * out_dim];
            let biases = &biases[1..=out_dim];
            let mut actual = vec![42; out_dim + 2];
            let mut expected = actual.clone();
            d.affine_propagate(input, weights, biases, &mut actual[1..=out_dim], in_dim, out_dim);
            Scalar::affine_propagate(input, weights, biases, &mut expected[1..=out_dim], in_dim, out_dim);
            assert_eq!(actual, expected, "{:?} dense {in_dim}x{out_dim}", d.backend());
            let indices: Vec<_> = (0..in_dim.div_ceil(4)).collect();
            actual.fill(42);
            d.affine_propagate_sparse(input, weights, biases, &mut actual[1..=out_dim], out_dim, &indices);
            assert_eq!(actual, expected, "{:?} sparse {in_dim}x{out_dim}", d.backend());
        }
    }
}

#[test]
fn backends_match_scalar_for_unaligned_nnz_blocks() {
    for d in supported_dispatches() {
        for len in [0, 4, 8, 16, 32, 64, 1024] {
            let input: Vec<_> = (0..len + 2).map(|i| if i % 11 == 0 { 255_u8 } else { 0 }).collect();
            let mut actual = [usize::MAX; MAX_NNZ];
            let mut expected = actual;
            let count = d.find_nnz(&input[1..=len], &mut actual);
            let expected_count = Scalar::find_nnz(&input[1..=len], &mut expected);
            assert_eq!(count, expected_count);
            assert_eq!(actual, expected, "{:?} length {len}", d.backend());
        }
    }
}

#[test]
fn find_nnz_ignores_a_trailing_partial_block() {
    let d = Dispatch::new();
    let input = [0u8, 0, 0, 0, 3, 0, 0, 0, 7, 9];
    let mut nnz = [0usize; MAX_NNZ];
    let count = d.find_nnz(&input, &mut nnz);
    assert_eq!(&nnz[..count], &[1]);
}

#[test]
fn sparse_affine_with_reordered_cover_matches_dense() {
    let d = Dispatch::new();
    let input = [0u8, 0, 0, 0, 3, 0, 0, 0, 7, 9];
    let weights: Vec<i8> = (0..30).map(|i| (i * 13 - 100) as i8).collect();
    let biases = [5i32, -7, 11];
    let mut dense = [0i32; 3];
    d.affine_propagate(&input, &weights, &biases, &mut dense, 10, 3);
    let mut sparse = [0i32; 3];
    d.affine_propagate_sparse(&input, &weights, &biases, &mut sparse, 3, &[2, 0, 1]);
    assert_eq!(sparse, dense);
    let mut only_nonzero = [0i32; 3];
    d.affine_propagate_sparse(&input, &weights, &biases, &mut only_nonzero, 3, &[2, 1]);
    assert_eq!(only_nonzero, dense);
}
