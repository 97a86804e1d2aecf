use pikarust_core::nnue::model::{LAYER_STACKS, TRANSFORMED_DIMS};
use pikarust_core::nnue::network::{
    affine_sparse, clipped_relu, layer_stack_buckets, sqr_clipped_relu, transform,
};
use pikarust_core::types::Color;

#[test]
fn test_layer_stack_buckets_range() {
    let buckets = layer_stack_buckets();
    for us_rook in 0..3 {
        for opp_rook in 0..3 {
            for us_kc in 0..5 {
                for opp_kc in 0..5 {
                    let b = buckets[us_rook][opp_rook][us_kc][opp_kc];
                    assert!(
                        (b as usize) < LAYER_STACKS,
                        "bucket {b} out of range for [{us_rook}][{opp_rook}][{us_kc}][{opp_kc}]"
                    );
                }
            }
        }
    }
}

#[test]
fn test_layer_stack_buckets_equal_rooks() {
    let buckets = layer_stack_buckets();
    assert_eq!(buckets[0][0][0][0], 1);
    assert_eq!(buckets[0][0][2][2], 3);
    assert_eq!(buckets[1][1][0][0], 5);
    assert_eq!(buckets[2][2][0][0], 9);
}

#[test]
fn test_layer_stack_buckets_unequal_rooks() {
    let buckets = layer_stack_buckets();
    assert_eq!(buckets[2][1][0][0], 12);
    assert_eq!(buckets[1][2][0][0], 13);
    assert_eq!(buckets[1][0][0][0], 14);
    assert_eq!(buckets[2][0][0][0], 14);
    assert_eq!(buckets[0][1][0][0], 15);
    assert_eq!(buckets[0][2][0][0], 15);
}

#[test]
fn test_clipped_relu_basic() {
    let input = [0i32, 64, 128, -10, 127 * 64 + 100, 8128];
    let mut output = [0u8; 6];
    clipped_relu(&input, &mut output);
    assert_eq!(output[0], 0);
    assert_eq!(output[1], 1);
    assert_eq!(output[2], 2);
    assert_eq!(output[3], 0);
    assert_eq!(output[4], 127);
    assert_eq!(output[5], 127);
}

#[test]
fn test_sqr_clipped_relu_basic() {
    let input = [0i32, -10, 127 * 64];
    let mut output = [0u8; 3];
    sqr_clipped_relu(&input, &mut output);
    assert_eq!(output[0], 0);
    assert_eq!(output[1], 0);
    // (127*64)^2 >> (12+7) = (8128)^2 >> 19 = 66_064_384 >> 19 = 126
    assert_eq!(output[2], 126);
}

#[test]
fn test_transform_basic() {
    let mut psq_acc = [[0i16; TRANSFORMED_DIMS]; 2];
    let mut threat_acc = [[0i16; TRANSFORMED_DIMS]; 2];

    psq_acc[0][0] = 100;
    threat_acc[0][0] = 50;
    psq_acc[0][512] = 200;
    threat_acc[0][512] = 55;

    let perspectives = [Color::White, Color::Black];
    let mut output = [0u8; TRANSFORMED_DIMS];
    transform(&psq_acc, &threat_acc, perspectives, &mut output);

    // sum0 = 150, sum1 = 255 -> (150 * 255) / 512 = 74
    assert_eq!(output[0], 74);
}

#[test]
fn test_transform_clamp_negative() {
    let mut psq_acc = [[0i16; TRANSFORMED_DIMS]; 2];
    let threat_acc = [[0i16; TRANSFORMED_DIMS]; 2];

    psq_acc[0][0] = -100;
    psq_acc[0][512] = 200;

    let perspectives = [Color::White, Color::Black];
    let mut output = [0u8; TRANSFORMED_DIMS];
    transform(&psq_acc, &threat_acc, perspectives, &mut output);

    // sum0 = -100 -> clamped to 0, result = 0
    assert_eq!(output[0], 0);
}

#[test]
fn test_affine_sparse_basic() {
    let input = [0u8, 2, 0, 3];
    let weights: Vec<i8> = vec![
        // input[0] * weights -> skipped (input=0)
        1, 2, // input[1] * weights
        3, 4, // input[2] * weights -> skipped (input=0)
        5, 6, // input[3] * weights
        7, 8,
    ];
    let biases = [10i32, 20];
    let mut output = [0i32; 2];
    affine_sparse(&input, &weights, &biases, &mut output, 4, 2);

    // output[0] = 10 + 2*3 + 3*7 = 10 + 6 + 21 = 37
    // output[1] = 20 + 2*4 + 3*8 = 20 + 8 + 24 = 52
    assert_eq!(output[0], 37);
    assert_eq!(output[1], 52);
}
