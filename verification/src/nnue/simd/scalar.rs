//! The portable implementation of the network's integer kernels.

use vstd::prelude::*;

use super::{
    SimdOps, add16, add16_widening, add32, block_add, block_nonzero, clamp, dense_out,
    dense_shape, nonzero_blocks, relu, sparse_out, sqr_relu, sub16, sub16_widening, sub32,
    transformed, wrapping_sum, MAX_NNZ,
};

verus! {

/// Element-by-element integer arithmetic.
pub struct Scalar;

/// Where a dense layer's weight for input `i` and output `o` is.
proof fn lemma_weight_index(i: int, o: int, in_dim: int, out_dim: int)
    requires
        0 <= i < in_dim,
        0 <= o < out_dim,
    ensures
        i * out_dim + o < in_dim * out_dim,
        0 <= i * out_dim + o,
{
    assert(i * out_dim + o < in_dim * out_dim) by (nonlinear_arith)
        requires
            0 <= i < in_dim,
            0 <= o < out_dim,
    ;
    assert(0 <= i * out_dim) by (nonlinear_arith)
        requires
            0 <= i,
            0 <= o < out_dim,
    ;
}

impl SimdOps for Scalar {
    fn vec_add_i16(a: &mut [i16], b: &[i16]) {
        let mut i: usize = 0;
        while i < a.len()
            invariant
                a@.len() == old(a)@.len() == b@.len(),
                i <= a@.len(),
                forall|j: int| 0 <= j < i ==> #[trigger] a@[j] == old(a)@[j].wrapping_add(b@[j]),
                forall|j: int| i <= j < a@.len() ==> #[trigger] a@[j] == old(a)@[j],
            decreases a@.len() - i,
        {
            a[i] = a[i].wrapping_add(b[i]);
            i = i + 1;
        }
        proof {
            assert(a@ =~= add16(old(a)@, b@));
        }
    }

    fn vec_sub_i16(a: &mut [i16], b: &[i16]) {
        let mut i: usize = 0;
        while i < a.len()
            invariant
                a@.len() == old(a)@.len() == b@.len(),
                i <= a@.len(),
                forall|j: int| 0 <= j < i ==> #[trigger] a@[j] == old(a)@[j].wrapping_sub(b@[j]),
                forall|j: int| i <= j < a@.len() ==> #[trigger] a@[j] == old(a)@[j],
            decreases a@.len() - i,
        {
            a[i] = a[i].wrapping_sub(b[i]);
            i = i + 1;
        }
        proof {
            assert(a@ =~= sub16(old(a)@, b@));
        }
    }

    fn vec_add_i32(a: &mut [i32], b: &[i32]) {
        let mut i: usize = 0;
        while i < a.len()
            invariant
                a@.len() == old(a)@.len() == b@.len(),
                i <= a@.len(),
                forall|j: int| 0 <= j < i ==> #[trigger] a@[j] == old(a)@[j].wrapping_add(b@[j]),
                forall|j: int| i <= j < a@.len() ==> #[trigger] a@[j] == old(a)@[j],
            decreases a@.len() - i,
        {
            a[i] = a[i].wrapping_add(b[i]);
            i = i + 1;
        }
        proof {
            assert(a@ =~= add32(old(a)@, b@));
        }
    }

    fn vec_sub_i32(a: &mut [i32], b: &[i32]) {
        let mut i: usize = 0;
        while i < a.len()
            invariant
                a@.len() == old(a)@.len() == b@.len(),
                i <= a@.len(),
                forall|j: int| 0 <= j < i ==> #[trigger] a@[j] == old(a)@[j].wrapping_sub(b@[j]),
                forall|j: int| i <= j < a@.len() ==> #[trigger] a@[j] == old(a)@[j],
            decreases a@.len() - i,
        {
            a[i] = a[i].wrapping_sub(b[i]);
            i = i + 1;
        }
        proof {
            assert(a@ =~= sub32(old(a)@, b@));
        }
    }

    fn vec_add_i16_widening(acc: &mut [i16], weights: &[i8]) {
        let mut i: usize = 0;
        while i < acc.len()
            invariant
                acc@.len() == old(acc)@.len() == weights@.len(),
                i <= acc@.len(),
                forall|j: int|
                    0 <= j < i ==> #[trigger] acc@[j] == old(acc)@[j].wrapping_add(weights@[j] as i16),
                forall|j: int| i <= j < acc@.len() ==> #[trigger] acc@[j] == old(acc)@[j],
            decreases acc@.len() - i,
        {
            acc[i] = acc[i].wrapping_add(weights[i] as i16);
            i = i + 1;
        }
        proof {
            assert(acc@ =~= add16_widening(old(acc)@, weights@));
        }
    }

    fn vec_sub_i16_widening(acc: &mut [i16], weights: &[i8]) {
        let mut i: usize = 0;
        while i < acc.len()
            invariant
                acc@.len() == old(acc)@.len() == weights@.len(),
                i <= acc@.len(),
                forall|j: int|
                    0 <= j < i ==> #[trigger] acc@[j] == old(acc)@[j].wrapping_sub(weights@[j] as i16),
                forall|j: int| i <= j < acc@.len() ==> #[trigger] acc@[j] == old(acc)@[j],
            decreases acc@.len() - i,
        {
            acc[i] = acc[i].wrapping_sub(weights[i] as i16);
            i = i + 1;
        }
        proof {
            assert(acc@ =~= sub16_widening(old(acc)@, weights@));
        }
    }

    fn transform_features(psq_acc: &[i16], threat_acc: &[i16], output: &mut [u8]) {
        let mut j: usize = 0;
        while j < 512
            invariant
                psq_acc@.len() == 1024,
                threat_acc@.len() == 1024,
                output@.len() == old(output)@.len(),
                old(output)@.len() >= 512,
                j <= 512,
                forall|k: int| 0 <= k < j ==> #[trigger] output@[k] == transformed(psq_acc@, threat_acc@, k),
                forall|k: int| j <= k < output@.len() ==> #[trigger] output@[k] == old(output)@[k],
            decreases 512 - j,
        {
            let sum0 = psq_acc[j] as i32 + threat_acc[j] as i32;
            let sum1 = psq_acc[j + 512] as i32 + threat_acc[j + 512] as i32;
            let c0: u32 = if sum0 < 0 {
                0
            } else if sum0 > 255 {
                255
            } else {
                sum0 as u32
            };
            let c1: u32 = if sum1 < 0 {
                0
            } else if sum1 > 255 {
                255
            } else {
                sum1 as u32
            };
            proof {
                assert(c0 * c1 <= 255 * 255) by (nonlinear_arith)
                    requires
                        c0 <= 255,
                        c1 <= 255,
                ;
            }
            output[j] = ((c0 * c1) / 512) as u8;
            j = j + 1;
        }
    }

    fn clipped_relu(input: &[i32], output: &mut [u8], shift: u32) {
        let mut i: usize = 0;
        while i < input.len()
            invariant
                output@.len() == old(output)@.len(),
                old(output)@.len() >= input@.len(),
                shift < 32,
                i <= input@.len(),
                forall|k: int| 0 <= k < i ==> #[trigger] output@[k] == relu(input@[k], shift),
                forall|k: int| i <= k < output@.len() ==> #[trigger] output@[k] == old(output)@[k],
            decreases input@.len() - i,
        {
            let v = input[i] >> shift;
            output[i] = if v < 0 {
                0
            } else if v > 127 {
                127
            } else {
                v as u8
            };
            i = i + 1;
        }
    }

    fn sqr_clipped_relu(input: &[i32], output: &mut [u8], shift: u32) {
        let mut i: usize = 0;
        while i < input.len()
            invariant
                output@.len() == old(output)@.len(),
                old(output)@.len() >= input@.len(),
                shift <= 28,
                i <= input@.len(),
                forall|k: int| 0 <= k < i ==> #[trigger] output@[k] == sqr_relu(input@[k], shift),
                forall|k: int| i <= k < output@.len() ==> #[trigger] output@[k] == old(output)@[k],
            decreases input@.len() - i,
        {
            let v = input[i] as i64;
            proof {
                assert(v * v <= 0x4000_0000_0000_0000) by (nonlinear_arith)
                    requires
                        -0x8000_0000 <= v <= 0x7fff_ffff,
                ;
                assert(v * v >= 0) by (nonlinear_arith);
            }
            let squared = (v * v) >> (2 * shift + 7);
            output[i] = if squared > 127 {
                127
            } else {
                squared as u8
            };
            i = i + 1;
        }
    }

    fn affine_propagate(
        input: &[u8],
        weights: &[i8],
        biases: &[i32],
        output: &mut [i32],
        in_dim: usize,
        out_dim: usize,
    ) {
        let mut o: usize = 0;
        while o < out_dim
            invariant
                o <= out_dim,
                output@.len() == old(output)@.len(),
                dense_shape(input@.len() as int, weights@.len() as int, biases@.len() as int, old(output)@.len() as int, in_dim as int, out_dim as int),
                forall|k: int| 0 <= k < o ==> #[trigger] output@[k] == biases@[k],
                forall|k: int| o <= k < output@.len() ==> #[trigger] output@[k] == old(output)@[k],
            decreases out_dim - o,
        {
            output[o] = biases[o];
            o = o + 1;
        }
        let wl = weights.len();
        let mut i: usize = 0;
        while i < in_dim
            invariant
                wl == weights@.len(),
                i <= in_dim,
                output@.len() == old(output)@.len(),
                dense_shape(input@.len() as int, weights@.len() as int, biases@.len() as int, old(output)@.len() as int, in_dim as int, out_dim as int),
                forall|k: int| 0 <= k < out_dim ==> #[trigger] output@[k] == dense_out(input@, weights@, biases@[k], out_dim as int, k, i as int),
                forall|k: int| out_dim <= k < output@.len() ==> #[trigger] output@[k] == old(output)@[k],
            decreases in_dim - i,
        {
            if input[i] != 0 {
                let in_val = input[i] as i32;
                let mut o: usize = 0;
                while o < out_dim
                    invariant
                        wl == weights@.len(),
                        i < in_dim,
                        o <= out_dim,
                        in_val == input@[i as int] as i32,
                        output@.len() == old(output)@.len(),
                        dense_shape(input@.len() as int, weights@.len() as int, biases@.len() as int, old(output)@.len() as int, in_dim as int, out_dim as int),
                        forall|k: int| 0 <= k < o ==> #[trigger] output@[k] == dense_out(input@, weights@, biases@[k], out_dim as int, k, i + 1),
                        forall|k: int| o <= k < out_dim ==> #[trigger] output@[k] == dense_out(input@, weights@, biases@[k], out_dim as int, k, i as int),
                        forall|k: int| out_dim <= k < output@.len() ==> #[trigger] output@[k] == old(output)@[k],
                    decreases out_dim - o,
                {
                    proof {
                        lemma_weight_index(i as int, o as int, in_dim as int, out_dim as int);
                        assert(i * out_dim + o < wl);
                    }
                    let w = weights[i * out_dim + o] as i32;
                    proof {
                        assert(-0x8000_0000 <= in_val * w < 0x8000_0000) by (nonlinear_arith)
                            requires
                                0 <= in_val <= 255,
                                -128 <= w <= 127,
                        ;
                    }
                    output[o] = output[o].wrapping_add(in_val * w);
                    o = o + 1;
                }
            } else {
                proof {
                    assert forall|k: int| 0 <= k < out_dim implies #[trigger] output@[k] == dense_out(input@, weights@, biases@[k], out_dim as int, k, i + 1) by {
                        let prev = dense_out(input@, weights@, biases@[k], out_dim as int, k, i as int);
                        let wk = weights@[i * out_dim + k] as i32;
                        assert(input@[i as int] as i32 * wk == 0) by (nonlinear_arith)
                            requires
                                input@[i as int] == 0,
                        ;
                        assert(prev.wrapping_add((input@[i as int] as i32 * wk) as i32) == prev);
                    }
                }
            }
            i = i + 1;
        }
    }

    fn horizontal_sum_i32(data: &[i32]) -> (r: i32) {
        let mut sum: i32 = 0;
        let mut i: usize = 0;
        while i < data.len()
            invariant
                i <= data@.len(),
                sum == wrapping_sum(data@, i as int),
            decreases data@.len() - i,
        {
            sum = sum.wrapping_add(data[i]);
            i = i + 1;
        }
        sum
    }

    fn find_nnz(input: &[u8], nnz_indices: &mut [usize; 256]) -> (n: usize) {
        let chunks = input.len() / 4;
        let mut count: usize = 0;
        let mut k: usize = 0;
        while k < chunks
            invariant
                chunks == input@.len() / 4,
                chunks <= MAX_NNZ,
                k <= chunks,
                count == nonzero_blocks(input@, k as int).len(),
                count <= k,
                forall|j: int| 0 <= j < count ==> #[trigger] nnz_indices@[j] == nonzero_blocks(input@, k as int)[j],
                forall|j: int| count <= j < 256 ==> #[trigger] nnz_indices@[j] == old(nnz_indices)@[j],
            decreases chunks - k,
        {
            let base = k * 4;
            if input[base] != 0 || input[base + 1] != 0 || input[base + 2] != 0 || input[base + 3] != 0 {
                nnz_indices[count] = k;
                count = count + 1;
            }
            k = k + 1;
        }
        count
    }

    fn affine_propagate_sparse(
        input: &[u8],
        weights: &[i8],
        biases: &[i32],
        output: &mut [i32],
        out_dim: usize,
        nnz_indices: &[usize],
    ) {
        let mut o: usize = 0;
        while o < out_dim
            invariant
                o <= out_dim,
                output@.len() == old(output)@.len(),
                dense_shape(input@.len() as int, weights@.len() as int, biases@.len() as int, old(output)@.len() as int, input@.len() as int, out_dim as int),
                forall|k: int| 0 <= k < o ==> #[trigger] output@[k] == biases@[k],
                forall|k: int| o <= k < output@.len() ==> #[trigger] output@[k] == old(output)@[k],
            decreases out_dim - o,
        {
            output[o] = biases[o];
            o = o + 1;
        }
        let wl = weights.len();
        let il = input.len();
        let mut j: usize = 0;
        while j < nnz_indices.len()
            invariant
                wl == weights@.len(),
                il == input@.len(),
                j <= nnz_indices@.len(),
                output@.len() == old(output)@.len(),
                dense_shape(input@.len() as int, weights@.len() as int, biases@.len() as int, old(output)@.len() as int, input@.len() as int, out_dim as int),
                forall|k: int| 0 <= k < nnz_indices@.len() ==> 4 * #[trigger] nnz_indices@[k] < input@.len(),
                forall|k: int| 0 <= k < out_dim ==> #[trigger] output@[k] == sparse_out(input@, weights@, biases@[k], out_dim as int, k, nnz_indices@, j as int),
                forall|k: int| out_dim <= k < output@.len() ==> #[trigger] output@[k] == old(output)@[k],
            decreases nnz_indices@.len() - j,
        {
            let b = nnz_indices[j];
            proof {
                assert(4 * b < input@.len());
            }
            let base = b * 4;
            let ghost start = output@;
            let mut sub: usize = 0;
            while sub < 4
                invariant
                    wl == weights@.len(),
                    j < nnz_indices@.len(),
                    b == nnz_indices@[j as int],
                    base == 4 * b,
                    base < input@.len(),
                    sub <= 4,
                    output@.len() == old(output)@.len(),
                    dense_shape(input@.len() as int, weights@.len() as int, biases@.len() as int, old(output)@.len() as int, input@.len() as int, out_dim as int),
                    forall|k: int| 0 <= k < out_dim ==> #[trigger] output@[k] == block_add(input@, weights@, start[k], out_dim as int, k, b as int, sub as int),
                    forall|k: int| out_dim <= k < output@.len() ==> #[trigger] output@[k] == old(output)@[k],
                decreases 4 - sub,
            {
                let idx = base + sub;
                if idx < input.len() && input[idx] != 0 {
                    let in_val = input[idx] as i32;
                    let ghost before = output@;
                    let mut o: usize = 0;
                    while o < out_dim
                        invariant
                            wl == weights@.len(),
                            idx < input@.len(),
                            idx == 4 * b + sub,
                            sub < 4,
                            o <= out_dim,
                            in_val == input@[idx as int] as i32,
                            output@.len() == old(output)@.len(),
                            dense_shape(input@.len() as int, weights@.len() as int, biases@.len() as int, old(output)@.len() as int, input@.len() as int, out_dim as int),
                            forall|k: int| 0 <= k < o ==> #[trigger] output@[k] == before[k].wrapping_add((in_val * weights@[idx * out_dim + k] as i32) as i32),
                            forall|k: int| o <= k < out_dim ==> #[trigger] output@[k] == before[k],
                            forall|k: int| out_dim <= k < output@.len() ==> #[trigger] output@[k] == old(output)@[k],
                        decreases out_dim - o,
                    {
                        proof {
                            lemma_weight_index(idx as int, o as int, input@.len() as int, out_dim as int);
                            assert(idx * out_dim + o < wl);
                        }
                        let w = weights[idx * out_dim + o] as i32;
                        proof {
                            assert(-0x8000_0000 <= in_val * w < 0x8000_0000) by (nonlinear_arith)
                                requires
                                    0 <= in_val <= 255,
                                    -128 <= w <= 127,
                            ;
                        }
                        output[o] = output[o].wrapping_add(in_val * w);
                        o = o + 1;
                    }
                } else {
                    proof {
                        assert forall|k: int| 0 <= k < out_dim implies #[trigger] output@[k] == block_add(input@, weights@, start[k], out_dim as int, k, b as int, sub + 1) by {
                            let prev = block_add(input@, weights@, start[k], out_dim as int, k, b as int, sub as int);
                            if idx < input@.len() {
                                assert(input@[idx as int] == 0);
                                let wk = weights@[idx * out_dim + k] as i32;
                                let t = (input@[idx as int] as i32 * wk) as i32;
                                assert(input@[idx as int] as i32 * wk == 0) by (nonlinear_arith)
                                    requires
                                        input@[idx as int] == 0,
                                ;
                                assert(t == 0);
                                assert(prev.wrapping_add(t) == prev);
                            }
                        }
                    }
                }
                sub = sub + 1;
            }
            j = j + 1;
        }
    }
}

} // verus!
