//! Evaluation by the layer stacks: the bucket of a position, the feature
//! transform and the three dense layers.

use vstd::prelude::*;

use super::features::half_ka_v2_hm::{layer_stack_bucket, layer_stack_bucket_spec};
use super::model::{LayerStackWeights, NnueModel, OUTPUT_SCALE, WEIGHT_SCALE_BITS};
use super::simd::{clamp, relu, transformed};
use crate::types::{Color, Piece, PieceType, Value, make_piece};

verus! {

/// `x`, or `m` where `x` exceeds it.
pub open spec fn at_most(x: int, m: int) -> int {
    if x < m {
        x
    } else {
        m
    }
}

/// `a / b` rounded toward zero, for a positive `b`.
pub open spec fn div_trunc(a: int, b: int) -> int {
    if a >= 0 {
        a / b
    } else {
        -((-a) / b)
    }
}

fn bucket_row(us_rook: usize, opp_rook: usize, us_kc: usize) -> (row: [u8; 5])
    requires
        us_rook < 3,
        opp_rook < 3,
        us_kc < 5,
    ensures
        forall|d: int|
            0 <= d < 5 ==> #[trigger] row[d] == layer_stack_bucket_spec(
                us_rook as int,
                opp_rook as int,
                us_kc as int,
                d,
            ),
{
    [
        layer_stack_bucket(us_rook, opp_rook, us_kc, 0),
        layer_stack_bucket(us_rook, opp_rook, us_kc, 1),
        layer_stack_bucket(us_rook, opp_rook, us_kc, 2),
        layer_stack_bucket(us_rook, opp_rook, us_kc, 3),
        layer_stack_bucket(us_rook, opp_rook, us_kc, 4),
    ]
}

fn bucket_plane(us_rook: usize, opp_rook: usize) -> (plane: [[u8; 5]; 5])
    requires
        us_rook < 3,
        opp_rook < 3,
    ensures
        forall|c: int, d: int|
            0 <= c < 5 && 0 <= d < 5 ==> #[trigger] plane[c][d] == layer_stack_bucket_spec(
                us_rook as int,
                opp_rook as int,
                c,
                d,
            ),
{
    [
        bucket_row(us_rook, opp_rook, 0),
        bucket_row(us_rook, opp_rook, 1),
        bucket_row(us_rook, opp_rook, 2),
        bucket_row(us_rook, opp_rook, 3),
        bucket_row(us_rook, opp_rook, 4),
    ]
}

fn bucket_cube(us_rook: usize) -> (cube: [[[u8; 5]; 5]; 3])
    requires
        us_rook < 3,
    ensures
        forall|b: int, c: int, d: int|
            0 <= b < 3 && 0 <= c < 5 && 0 <= d < 5 ==> #[trigger] cube[b][c][d]
                == layer_stack_bucket_spec(us_rook as int, b, c, d),
{
    [bucket_plane(us_rook, 0), bucket_plane(us_rook, 1), bucket_plane(us_rook, 2)]
}

/// The layer-stack bucket table, indexed by the rook counts of the side to
/// move and of its opponent, then by their knight-and-cannon counts (see
/// `layer_stack_bucket_spec`).
pub fn layer_stack_buckets() -> (v: [[[[u8; 5]; 5]; 3]; 3])
    ensures
        forall|a: int, b: int, c: int, d: int|
            0 <= a < 3 && 0 <= b < 3 && 0 <= c < 5 && 0 <= d < 5 ==> #[trigger] v[a][b][c][d]
                == layer_stack_bucket_spec(a, b, c, d),
{
    [bucket_cube(0), bucket_cube(1), bucket_cube(2)]
}

/// The layer stack for the piece counts `piece_count` with `side_to_move`
/// to move, counts above the table's reach taken at its edge.
pub fn make_layer_stack_bucket(piece_count: &[u8; 16], side_to_move: Color) -> (b: usize)
    requires
        piece_count[make_piece(side_to_move, PieceType::Knight).id()] + piece_count[make_piece(
            side_to_move,
            PieceType::Cannon,
        ).id()] <= u8::MAX,
        piece_count[make_piece(side_to_move.opp(), PieceType::Knight).id()]
            + piece_count[make_piece(side_to_move.opp(), PieceType::Cannon).id()] <= u8::MAX,
    ensures
        b == layer_stack_bucket_spec(
            at_most(piece_count[make_piece(side_to_move, PieceType::Rook).id()] as int, 2),
            at_most(piece_count[make_piece(side_to_move.opp(), PieceType::Rook).id()] as int, 2),
            at_most(
                piece_count[make_piece(side_to_move, PieceType::Knight).id()]
                    + piece_count[make_piece(side_to_move, PieceType::Cannon).id()],
                4,
            ),
            at_most(
                piece_count[make_piece(side_to_move.opp(), PieceType::Knight).id()]
                    + piece_count[make_piece(side_to_move.opp(), PieceType::Cannon).id()],
                4,
            ),
        ),
        b < 16,
{
    let stm = side_to_move;
    let them = stm.flip();
    let us_rook = piece_count[Piece::make(stm, PieceType::Rook).index()];
    let opp_rook = piece_count[Piece::make(them, PieceType::Rook).index()];
    let us_kc = piece_count[Piece::make(stm, PieceType::Knight).index()]
        + piece_count[Piece::make(stm, PieceType::Cannon).index()];
    let opp_kc = piece_count[Piece::make(them, PieceType::Knight).index()]
        + piece_count[Piece::make(them, PieceType::Cannon).index()];
    let a: usize = if us_rook < 2 {
        us_rook as usize
    } else {
        2
    };
    let b: usize = if opp_rook < 2 {
        opp_rook as usize
    } else {
        2
    };
    let c: usize = if us_kc < 4 {
        us_kc as usize
    } else {
        4
    };
    let d: usize = if opp_kc < 4 {
        opp_kc as usize
    } else {
        4
    };
    layer_stack_bucket(a, b, c, d) as usize
}

/// Output `o` of a dense layer after its first `n` inputs: the bias plus
/// each input times its weight (`weights` laid out input by input).
pub open spec fn affine_sum(input: Seq<u8>, weights: Seq<i8>, bias: int, out_dim: int, o: int, n: int) -> int
    decreases n,
{
    if n <= 0 {
        bias
    } else {
        affine_sum(input, weights, bias, out_dim, o, n - 1) + input[n - 1] * weights[(n - 1)
            * out_dim + o]
    }
}

/// Every running sum of a dense layer over its first `n_in` inputs fits an
/// `i32`.
pub open spec fn affine_fits(input: Seq<u8>, weights: Seq<i8>, biases: Seq<i32>, out_dim: int, n_in: int) -> bool {
    forall|o: int, k: int|
        0 <= o < out_dim && 0 <= k <= n_in ==> i32::MIN <= #[trigger] affine_sum(
            input,
            weights,
            biases[o] as int,
            out_dim,
            o,
            k,
        ) <= i32::MAX
}

proof fn lemma_weight_index(i: int, o: int, in_dim: int, out_dim: int)
    requires
        0 <= i < in_dim,
        0 <= o < out_dim,
    ensures
        0 <= i * out_dim + o < in_dim * out_dim,
        0 <= i * out_dim,
{
    assert(i * out_dim + o < in_dim * out_dim) by (nonlinear_arith)
        requires
            0 <= i < in_dim,
            0 <= o < out_dim,
    ;
    assert(0 <= i * out_dim) by (nonlinear_arith)
        requires
            0 <= i,
            0 <= o < out_dim,
    ;
}

/// One input's contribution to all outputs of a dense layer.
fn affine_add_input(
    input: &[u8],
    weights: &[i8],
    biases: &[i32],
    output: &mut [i32],
    i: usize,
    in_dim: usize,
    out_dim: usize,
)
    requires
        i < in_dim,
        in_dim <= input@.len(),
        in_dim * out_dim <= weights@.len(),
        out_dim <= biases@.len(),
        out_dim <= old(output)@.len(),
        affine_fits(input@, weights@, biases@, out_dim as int, in_dim as int),
        forall|o: int|
            0 <= o < out_dim ==> #[trigger] old(output)@[o] == affine_sum(
                input@,
                weights@,
                biases@[o] as int,
                out_dim as int,
                o,
                i as int,
            ),
    ensures
        final(output)@.len() == old(output)@.len(),
        forall|o: int|
            0 <= o < out_dim ==> #[trigger] final(output)@[o] == affine_sum(
                input@,
                weights@,
                biases@[o] as int,
                out_dim as int,
                o,
                i as int + 1,
            ),
        forall|o: int| out_dim <= o < old(output)@.len() ==> #[trigger] final(output)@[o] == old(
            output,
        )@[o],
{
    if input[i] == 0 {
        return ;
    }
    let in_val = input[i] as i32;
    let wl = weights.len();
    let mut o: usize = 0;
    while o < out_dim
        invariant
            wl == weights@.len(),
            i < in_dim,
            in_dim <= input@.len(),
            in_dim * out_dim <= weights@.len(),
            out_dim <= biases@.len(),
            out_dim <= output@.len(),
            output@.len() == old(output)@.len(),
            in_val == input@[i as int],
            o <= out_dim,
            affine_fits(input@, weights@, biases@, out_dim as int, in_dim as int),
            forall|p: int|
                0 <= p < o ==> #[trigger] output@[p] == affine_sum(
                    input@,
                    weights@,
                    biases@[p] as int,
                    out_dim as int,
                    p,
                    i as int + 1,
                ),
            forall|p: int|
                o <= p < out_dim ==> #[trigger] output@[p] == affine_sum(
                    input@,
                    weights@,
                    biases@[p] as int,
                    out_dim as int,
                    p,
                    i as int,
                ),
            forall|p: int| out_dim <= p < output@.len() ==> #[trigger] output@[p] == old(output)@[p],
        decreases out_dim - o,
    {
        proof {
            lemma_weight_index(i as int, o as int, in_dim as int, out_dim as int);
            assert(i32::MIN <= affine_sum(
                input@,
                weights@,
                biases@[o as int] as int,
                out_dim as int,
                o as int,
                i as int + 1,
            ) <= i32::MAX);
        }
        let w = weights[i * out_dim + o] as i32;
        proof {
            assert(-128 * 255 <= in_val * w <= 255 * 127) by (nonlinear_arith)
                requires
                    0 <= in_val <= 255,
                    -128 <= w <= 127,
            ;
        }
        output[o] = output[o] + in_val * w;
        o = o + 1;
    }
}

/// A dense layer over a sparse input: `output` starts from the biases and
/// gains, for each non-zero input, the input times its weights.
pub fn affine_sparse(
    input: &[u8],
    weights: &[i8],
    biases: &[i32],
    output: &mut [i32],
    in_dim: usize,
    out_dim: usize,
)
    requires
        in_dim <= input@.len(),
        in_dim * out_dim <= weights@.len(),
        out_dim <= biases@.len(),
        out_dim <= old(output)@.len(),
        affine_fits(input@, weights@, biases@, out_dim as int, in_dim as int),
    ensures
        final(output)@.len() == old(output)@.len(),
        forall|o: int|
            0 <= o < out_dim ==> #[trigger] final(output)@[o] == affine_sum(
                input@,
                weights@,
                biases@[o] as int,
                out_dim as int,
                o,
                in_dim as int,
            ),
        forall|o: int| out_dim <= o < old(output)@.len() ==> #[trigger] final(output)@[o] == old(
            output,
        )@[o],
{
    let mut o: usize = 0;
    while o < out_dim
        invariant
            o <= out_dim,
            out_dim <= biases@.len(),
            out_dim <= output@.len(),
            output@.len() == old(output)@.len(),
            forall|p: int| 0 <= p < o ==> #[trigger] output@[p] == biases@[p],
            forall|p: int| out_dim <= p < output@.len() ==> #[trigger] output@[p] == old(output)@[p],
        decreases out_dim - o,
    {
        output[o] = biases[o];
        o = o + 1;
    }
    let mut i: usize = 0;
    while i < in_dim
        invariant
            i <= in_dim,
            in_dim <= input@.len(),
            in_dim * out_dim <= weights@.len(),
            out_dim <= biases@.len(),
            out_dim <= output@.len(),
            output@.len() == old(output)@.len(),
            affine_fits(input@, weights@, biases@, out_dim as int, in_dim as int),
            forall|p: int|
                0 <= p < out_dim ==> #[trigger] output@[p] == affine_sum(
                    input@,
                    weights@,
                    biases@[p] as int,
                    out_dim as int,
                    p,
                    i as int,
                ),
            forall|p: int| out_dim <= p < output@.len() ==> #[trigger] output@[p] == old(output)@[p],
        decreases in_dim - i,
    {
        affine_add_input(input, weights, biases, output, i, in_dim, out_dim);
        i = i + 1;
    }
}

/// A dense layer over all of `input` (the weights being laid out for
/// `padded_in_dim` inputs, of which the ones beyond `input` are zero).
pub fn affine_dense(
    input: &[u8],
    weights: &[i8],
    biases: &[i32],
    output: &mut [i32],
    padded_in_dim: usize,
    out_dim: usize,
)
    requires
        input@.len() * out_dim <= weights@.len(),
        out_dim <= biases@.len(),
        out_dim <= old(output)@.len(),
        affine_fits(input@, weights@, biases@, out_dim as int, input@.len() as int),
    ensures
        final(output)@.len() == old(output)@.len(),
        forall|o: int|
            0 <= o < out_dim ==> #[trigger] final(output)@[o] == affine_sum(
                input@,
                weights@,
                biases@[o] as int,
                out_dim as int,
                o,
                input@.len() as int,
            ),
        forall|o: int| out_dim <= o < old(output)@.len() ==> #[trigger] final(output)@[o] == old(
            output,
        )@[o],
{
    affine_sparse(input, weights, biases, output, input.len(), out_dim);
}

/// The clipped ReLU of each input: shifted right by the weight scale,
/// clamped to `[0, 127]`.
pub fn clipped_relu(input: &[i32], output: &mut [u8])
    requires
        input@.len() <= old(output)@.len(),
    ensures
        final(output)@.len() == old(output)@.len(),
        forall|i: int|
            0 <= i < input@.len() ==> #[trigger] final(output)@[i] == relu(
                input@[i],
                WEIGHT_SCALE_BITS,
            ),
        forall|i: int| input@.len() <= i < old(output)@.len() ==> #[trigger] final(output)@[i] == old(
            output,
        )@[i],
{
    let mut i: usize = 0;
    while i < input.len()
        invariant
            i <= input@.len(),
            input@.len() <= output@.len(),
            output@.len() == old(output)@.len(),
            forall|k: int| 0 <= k < i ==> #[trigger] output@[k] == relu(input@[k], WEIGHT_SCALE_BITS),
            forall|k: int| i <= k < output@.len() ==> #[trigger] output@[k] == old(output)@[k],
        decreases input@.len() - i,
    {
        let x = input[i] >> WEIGHT_SCALE_BITS;
        output[i] = if x < 0 {
            0
        } else if x > 127 {
            127
        } else {
            x as u8
        };
        i = i + 1;
    }
}

/// The squared clipped ReLU of `x`: clamped to `[0, 127 << 6]`, squared,
/// shifted right by 19, capped at 127.
pub open spec fn sqr_clipped(x: i32) -> u8 {
    let c = clamp(x as int, 0, 8128int) as i64;
    let sq = ((c * c) as i64) >> 19u64;
    (if sq > 127 {
        127
    } else {
        sq
    }) as u8
}

/// The squared clipped ReLU of each input (see `sqr_clipped`).
pub fn sqr_clipped_relu(input: &[i32], output: &mut [u8])
    requires
        input@.len() <= old(output)@.len(),
    ensures
        final(output)@.len() == old(output)@.len(),
        forall|i: int| 0 <= i < input@.len() ==> #[trigger] final(output)@[i] == sqr_clipped(input@[i]),
        forall|i: int| input@.len() <= i < old(output)@.len() ==> #[trigger] final(output)@[i] == old(
            output,
        )@[i],
{
    let max_val: i32 = 127i32 << WEIGHT_SCALE_BITS;
    proof {
        assert(127i32 << 6u32 == 8128i32) by (bit_vector);
    }
    let mut i: usize = 0;
    while i < input.len()
        invariant
            i <= input@.len(),
            input@.len() <= output@.len(),
            output@.len() == old(output)@.len(),
            max_val == 8128,
            forall|k: int| 0 <= k < i ==> #[trigger] output@[k] == sqr_clipped(input@[k]),
            forall|k: int| i <= k < output@.len() ==> #[trigger] output@[k] == old(output)@[k],
        decreases input@.len() - i,
    {
        let x = input[i];
        let clamped: i64 = if x < 0 {
            0
        } else if x > max_val {
            max_val as i64
        } else {
            x as i64
        };
        proof {
            assert(clamped * clamped <= 8128 * 8128) by (nonlinear_arith)
                requires
                    0 <= clamped <= 8128,
            ;
        }
        let squared = (clamped * clamped) >> (2 * WEIGHT_SCALE_BITS + 7);
        output[i] = if squared > 127 {
            127
        } else {
            squared as u8
        };
        i = i + 1;
    }
}

/// The feature transform of both perspectives, the side to move first:
/// byte `p * 512 + j` is `transformed` of the accumulators of perspective
/// `p`.
pub fn transform(
    psq_acc: &[[i16; 1024]; 2],
    threat_acc: &[[i16; 1024]; 2],
    perspectives: [Color; 2],
    output: &mut [u8; 1024],
)
    ensures
        forall|p: int, j: int|
            0 <= p < 2 && 0 <= j < 512 ==> #[trigger] final(output)[p * 512 + j] == transformed(
                psq_acc[perspectives[p].id()]@,
                threat_acc[perspectives[p].id()]@,
                j,
            ),
{
    let mut p: usize = 0;
    while p < 2
        invariant
            p <= 2,
            forall|q: int, j: int|
                0 <= q < p && 0 <= j < 512 ==> #[trigger] output[q * 512 + j] == transformed(
                    psq_acc[perspectives[q].id()]@,
                    threat_acc[perspectives[q].id()]@,
                    j,
                ),
        decreases 2 - p,
    {
        let offset = p * 512;
        let c = perspectives[p].index();
        let mut j: usize = 0;
        while j < 512
            invariant
                p < 2,
                offset == p * 512,
                c == perspectives[p as int].id(),
                j <= 512,
                forall|q: int, k: int|
                    0 <= q < p && 0 <= k < 512 ==> #[trigger] output[q * 512 + k] == transformed(
                        psq_acc[perspectives[q].id()]@,
                        threat_acc[perspectives[q].id()]@,
                        k,
                    ),
                forall|k: int|
                    0 <= k < j ==> #[trigger] output[offset + k] == transformed(
                        psq_acc[c as int]@,
                        threat_acc[c as int]@,
                        k,
                    ),
            decreases 512 - j,
        {
            let sum0 = psq_acc[c][j] as i32 + threat_acc[c][j] as i32;
            let sum1 = psq_acc[c][j + 512] as i32 + threat_acc[c][j + 512] as i32;
            let c0: u32 = if sum0 < 0 {
                0
            } else if sum0 > 255 {
                255
            } else {
                sum0 as u32
            };
            let c1: u32 = if sum1 < 0 {
                0
            } else if sum1 > 255 {
                255
            } else {
                sum1 as u32
            };
            proof {
                assert(c0 * c1 <= 255 * 255) by (nonlinear_arith)
                    requires
                        c0 <= 255,
                        c1 <= 255,
                ;
            }
            output[offset + j] = ((c0 * c1) / 512) as u8;
            j = j + 1;
        }
        p = p + 1;
    }
}

/// Output `o` of the first layer.
pub open spec fn fc0_out(ls: &LayerStackWeights, input: Seq<u8>, o: int) -> int {
    affine_sum(input, ls.fc0_weights@, ls.fc0_biases@[o] as int, 32, o, 1024)
}

/// The second layer's input: the squared and the plain clipped ReLU of the
/// first 31 outputs of the first layer.
pub open spec fn hidden1(ls: &LayerStackWeights, input: Seq<u8>) -> Seq<u8> {
    Seq::new(
        62,
        |i: int|
            if i < 31 {
                sqr_clipped(fc0_out(ls, input, i) as i32)
            } else {
                relu(fc0_out(ls, input, i - 31) as i32, WEIGHT_SCALE_BITS)
            },
    )
}

/// Output `o` of the second layer.
pub open spec fn fc1_out(ls: &LayerStackWeights, input: Seq<u8>, o: int) -> int {
    affine_sum(hidden1(ls, input), ls.fc1_weights@, ls.fc1_biases@[o] as int, 32, o, 62)
}

/// The third layer's input: the clipped ReLU of the second layer.
pub open spec fn hidden2(ls: &LayerStackWeights, input: Seq<u8>) -> Seq<u8> {
    Seq::new(32, |o: int| relu(fc1_out(ls, input, o) as i32, WEIGHT_SCALE_BITS))
}

/// The output of the third layer.
pub open spec fn fc2_out(ls: &LayerStackWeights, input: Seq<u8>) -> int {
    affine_sum(hidden2(ls, input), ls.fc2_weights@, ls.fc2_biases@[0] as int, 1, 0, 32)
}

/// The skip connection: the last output of the first layer, scaled by
/// `600 * 16 / (127 << 6)`.
pub open spec fn skip_out(ls: &LayerStackWeights, input: Seq<u8>) -> int {
    div_trunc(fc0_out(ls, input, 31) * 9600, 8128)
}

/// No layer overflows an `i32` on `input`.
pub open spec fn layers_fit(ls: &LayerStackWeights, input: Seq<u8>) -> bool {
    &&& affine_fits(input, ls.fc0_weights@, ls.fc0_biases@, 32, 1024)
    &&& affine_fits(hidden1(ls, input), ls.fc1_weights@, ls.fc1_biases@, 32, 62)
    &&& affine_fits(hidden2(ls, input), ls.fc2_weights@, ls.fc2_biases@, 1, 32)
    &&& i32::MIN <= fc2_out(ls, input) + (skip_out(ls, input) as i32) <= i32::MAX
}

/// The positional output of a layer stack: the last layer plus the skip
/// connection, divided by the output scale.
pub open spec fn propagate_spec(ls: &LayerStackWeights, input: Seq<u8>) -> int {
    div_trunc(fc2_out(ls, input) + (skip_out(ls, input) as i32), OUTPUT_SCALE as int)
}

/// Runs the three layers of `ls` on the transformed features.
pub fn propagate_layers(ls: &LayerStackWeights, input: &[u8; 1024]) -> (v: Value)
    requires
        ls.wf(),
        layers_fit(ls, input@),
    ensures
        v == propagate_spec(ls, input@),
{
    broadcast use vstd::array::group_array_axioms;

    let mut fc0_out_v = [0i32; 32];
    affine_sparse(input.as_slice(), ls.fc0_weights.as_slice(), ls.fc0_biases.as_slice(), &mut fc0_out_v, 1024, 32);
    let mut first = [0i32; 31];
    let mut k: usize = 0;
    while k < 31
        invariant
            k <= 31,
            forall|j: int| 0 <= j < k ==> #[trigger] first[j] == fc0_out_v[j],
        decreases 31 - k,
    {
        first[k] = fc0_out_v[k];
        k = k + 1;
    }
    let mut sqr_relu_out = [0u8; 31];
    sqr_clipped_relu(first.as_slice(), &mut sqr_relu_out);
    let mut relu_out = [0u8; 31];
    clipped_relu(first.as_slice(), &mut relu_out);
    let mut concat = [0u8; 62];
    let mut k: usize = 0;
    while k < 31
        invariant
            k <= 31,
            forall|j: int| 0 <= j < k ==> #[trigger] concat[j] == sqr_relu_out[j],
            forall|j: int| 0 <= j < k ==> #[trigger] concat[j + 31] == relu_out[j],
        decreases 31 - k,
    {
        concat[k] = sqr_relu_out[k];
        concat[k + 31] = relu_out[k];
        k = k + 1;
    }
    proof {
        assert forall|j: int| 0 <= j < 62 implies #[trigger] concat@[j] == hidden1(ls, input@)[j] by {
            if j < 31 {
                assert(concat[j] == sqr_relu_out[j]);
                assert(first[j] == fc0_out_v[j]);
            } else {
                assert(concat[(j - 31) + 31] == relu_out[j - 31]);
                assert(first[j - 31] == fc0_out_v[j - 31]);
            }
        }
        assert(concat@ =~= hidden1(ls, input@));
    }
    let mut fc1_out_v = [0i32; 32];
    affine_dense(concat.as_slice(), ls.fc1_weights.as_slice(), ls.fc1_biases.as_slice(), &mut fc1_out_v, 64, 32);
    let mut fc1_relu = [0u8; 32];
    clipped_relu(fc1_out_v.as_slice(), &mut fc1_relu);
    proof {
        assert(fc1_relu@ =~= hidden2(ls, input@));
    }
    let mut fc2_out_v = [0i32; 1];
    affine_dense(fc1_relu.as_slice(), ls.fc2_weights.as_slice(), ls.fc2_biases.as_slice(), &mut fc2_out_v, 32, 1);
    let skip = fc0_out_v[31] as i64;
    let scaled = skip * (600 * OUTPUT_SCALE as i64);
    let unit: i64 = 1i64 << WEIGHT_SCALE_BITS;
    proof {
        assert(1i64 << 6u32 == 64i64) by (bit_vector);
    }
    let divisor: i64 = 127 * unit;
    let fwd_out: i64 = if scaled >= 0 {
        scaled / divisor
    } else {
        -((-scaled) / divisor)
    };
    let total = fc2_out_v[0] + #[verifier::truncate] (fwd_out as i32);
    let t = total as i64;
    let q: i64 = if t >= 0 {
        t / OUTPUT_SCALE as i64
    } else {
        -((-t) / OUTPUT_SCALE as i64)
    };
    q as i32
}

/// The transformed features of both perspectives, `perspectives[0]` first.
pub open spec fn transform_spec(
    psq_acc: [[i16; 1024]; 2],
    threat_acc: [[i16; 1024]; 2],
    perspectives: [Color; 2],
) -> Seq<u8> {
    Seq::new(
        1024,
        |i: int|
            transformed(
                psq_acc[perspectives[i / 512].id()]@,
                threat_acc[perspectives[i / 512].id()]@,
                i % 512,
            ),
    )
}

/// The piece-square-table score before scaling: the side to move's
/// bucket entries less the opponent's, halved toward zero.
pub open spec fn psqt_value(
    psqt_psq: [[i32; 16]; 2],
    psqt_threat: [[i32; 16]; 2],
    us: Color,
    bucket: int,
) -> int {
    div_trunc(
        psqt_psq[us.id()][bucket] - psqt_psq[us.opp().id()][bucket] + psqt_threat[us.id()][bucket]
            - psqt_threat[us.opp().id()][bucket],
        2,
    )
}

/// The piece-square-table score of a difference `d` (the side to move's
/// entries less the opponent's) is `d / 32` rounded toward zero: thirty-two
/// times the score is within one step of thirty-two below `d` for a
/// positive `d`, and above it for a negative one.
pub proof fn lemma_psqt_score_bounds(d: int)
    ensures
        ({
            let v = div_trunc(div_trunc(d, 2), OUTPUT_SCALE as int);
            &&& d >= 0 ==> 2 * OUTPUT_SCALE * v <= d < 2 * OUTPUT_SCALE * v + 2 * OUTPUT_SCALE
            &&& d < 0 ==> 2 * OUTPUT_SCALE * v - 2 * OUTPUT_SCALE < d <= 2 * OUTPUT_SCALE * v
        }),
{
    let v = div_trunc(div_trunc(d, 2), OUTPUT_SCALE as int);
    if d >= 0 {
        vstd::arithmetic::div_mod::lemma_div_denominator(d, 2, 16);
        assert(v == d / 32);
        vstd::arithmetic::div_mod::lemma_fundamental_div_mod(d, 32);
        assert(0 <= d % 32 < 32);
    } else {
        let e = -d;
        vstd::arithmetic::div_mod::lemma_div_denominator(e, 2, 16);
        assert(e / 2 >= 0);
        assert(v == -(e / 32));
        vstd::arithmetic::div_mod::lemma_fundamental_div_mod(e, 32);
        assert(0 <= e % 32 < 32);
    }
}

/// The piece-square-table score never falls when the difference between
/// the side to move's entries and the opponent's grows: it rises with the
/// side to move's entry and falls with the opponent's.
pub proof fn lemma_psqt_score_monotone(d1: int, d2: int)
    requires
        d1 <= d2,
    ensures
        div_trunc(div_trunc(d1, 2), OUTPUT_SCALE as int) <= div_trunc(div_trunc(d2, 2), OUTPUT_SCALE as int),
{
    lemma_psqt_score_bounds(d1);
    lemma_psqt_score_bounds(d2);
}

/// The running sums of `psqt_value` fit an `i32`.
pub open spec fn psqt_fits(psqt_psq: [[i32; 16]; 2], psqt_threat: [[i32; 16]; 2], us: Color, bucket: int) -> bool {
    let a = psqt_psq[us.id()][bucket] - psqt_psq[us.opp().id()][bucket];
    let b = a + psqt_threat[us.id()][bucket];
    let c = b - psqt_threat[us.opp().id()][bucket];
    &&& i32::MIN <= a <= i32::MAX
    &&& i32::MIN <= b <= i32::MAX
    &&& i32::MIN <= c <= i32::MAX
}

/// The layer-stack bucket of `make_layer_stack_bucket`.
pub open spec fn bucket_of(piece_count: [u8; 16], us: Color) -> int {
    layer_stack_bucket_spec(
        at_most(piece_count[make_piece(us, PieceType::Rook).id()] as int, 2),
        at_most(piece_count[make_piece(us.opp(), PieceType::Rook).id()] as int, 2),
        at_most(
            piece_count[make_piece(us, PieceType::Knight).id()] + piece_count[make_piece(
                us,
                PieceType::Cannon,
            ).id()],
            4,
        ),
        at_most(
            piece_count[make_piece(us.opp(), PieceType::Knight).id()] + piece_count[make_piece(
                us.opp(),
                PieceType::Cannon,
            ).id()],
            4,
        ),
    )
}

/// A network ready to evaluate.
pub struct Network {
    model: NnueModel,
}

impl Network {
    /// The weights this network evaluates with.
    pub closed spec fn the_model(&self) -> NnueModel {
        self.model
    }

    pub fn new(model: NnueModel) -> (n: Network)
        ensures
            n.the_model() == model,
    {
        Network { model }
    }

    pub fn model(&self) -> (m: &NnueModel)
        ensures
            *m == self.the_model(),
    {
        &self.model
    }

    /// Evaluates a position from its accumulators, its piece counts and the
    /// side to move: the piece-square-table score of the layer-stack bucket
    /// (divided by the output scale) and the positional score of that
    /// bucket's layer stack on the transformed features.
    pub fn evaluate(
        &self,
        psq_acc: &[[i16; 1024]; 2],
        threat_acc: &[[i16; 1024]; 2],
        psqt_psq: &[[i32; 16]; 2],
        psqt_threat: &[[i32; 16]; 2],
        piece_count: &[u8; 16],
        side_to_move: Color,
    ) -> (r: (Value, Value))
        requires
            self.the_model().wf(),
            piece_count[make_piece(side_to_move, PieceType::Knight).id()]
                + piece_count[make_piece(side_to_move, PieceType::Cannon).id()] <= u8::MAX,
            piece_count[make_piece(side_to_move.opp(), PieceType::Knight).id()]
                + piece_count[make_piece(side_to_move.opp(), PieceType::Cannon).id()] <= u8::MAX,
            forall|b: int|
                0 <= b < 16 ==> #[trigger] psqt_fits(*psqt_psq, *psqt_threat, side_to_move, b),
            forall|b: int|
                0 <= b < 16 ==> layers_fit(
                    &#[trigger] self.the_model().layer_stacks@[b],
                    transform_spec(*psq_acc, *threat_acc, [side_to_move, side_to_move.opp()]),
                ),
        ensures
            r.0 == div_trunc(
                psqt_value(*psqt_psq, *psqt_threat, side_to_move, bucket_of(*piece_count, side_to_move)),
                OUTPUT_SCALE as int,
            ),
            ({
                let b = bucket_of(*piece_count, side_to_move);
                let us = side_to_move.id();
                let them = side_to_move.opp().id();
                let d = psqt_psq[us][b] - psqt_psq[them][b] + psqt_threat[us][b] - psqt_threat[them][b];
                &&& d >= 0 ==> 2 * OUTPUT_SCALE * r.0 <= d < 2 * OUTPUT_SCALE * r.0 + 2 * OUTPUT_SCALE
                &&& d < 0 ==> 2 * OUTPUT_SCALE * r.0 - 2 * OUTPUT_SCALE < d <= 2 * OUTPUT_SCALE * r.0
            }),
            r.1 == propagate_spec(
                &self.the_model().layer_stacks@[bucket_of(*piece_count, side_to_move)],
                transform_spec(*psq_acc, *threat_acc, [side_to_move, side_to_move.opp()]),
            ),
    {
        let bucket = make_layer_stack_bucket(piece_count, side_to_move);
        let stm = side_to_move;
        let us = stm.index();
        let them = stm.flip().index();
        proof {
            assert(psqt_fits(*psqt_psq, *psqt_threat, side_to_move, bucket as int));
        }
        let sum = psqt_psq[us][bucket] - psqt_psq[them][bucket] + psqt_threat[us][bucket]
            - psqt_threat[them][bucket];
        let psqt_val: i32 = if sum >= 0 {
            sum / 2
        } else {
            -((-(sum as i64)) / 2) as i32
        };
        let perspectives = [stm, stm.flip()];
        let mut transformed_out = [0u8; 1024];
        transform(psq_acc, threat_acc, perspectives, &mut transformed_out);
        proof {
            assert forall|i: int| 0 <= i < 1024 implies #[trigger] transformed_out@[i] == transform_spec(
                *psq_acc,
                *threat_acc,
                perspectives,
            )[i] by {
                let p = i / 512;
                let j = i % 512;
                assert(i == p * 512 + j);
            }
            assert(transformed_out@ =~= transform_spec(*psq_acc, *threat_acc, perspectives));
        }
        let ls = &self.model.layer_stacks[bucket];
        proof {
            assert(layers_fit(
                &self.the_model().layer_stacks@[bucket as int],
                transform_spec(*psq_acc, *threat_acc, [side_to_move, side_to_move.opp()]),
            ));
        }
        let positional = propagate_layers(ls, &transformed_out);
        let p64 = psqt_val as i64;
        let scaled: i64 = if p64 >= 0 {
            p64 / OUTPUT_SCALE as i64
        } else {
            -((-p64) / OUTPUT_SCALE as i64)
        };
        proof {
            lemma_psqt_score_bounds(
                psqt_psq[us as int][bucket as int] - psqt_psq[them as int][bucket as int]
                    + psqt_threat[us as int][bucket as int] - psqt_threat[them as int][bucket as int],
            );
        }
        (scaled as i32, positional)
    }
}

} // verus!
