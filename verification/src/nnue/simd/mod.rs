//! The integer vector operations of the network, with one portable backend.

use vstd::prelude::*;

pub mod scalar;

verus! {

/// Most non-zero four-byte blocks `find_nnz` reports.
pub const MAX_NNZ: usize = 256;

/// Each element of `a` plus the matching element of `b`, wrapping.
pub open spec fn add16(a: Seq<i16>, b: Seq<i16>) -> Seq<i16> {
    Seq::new(a.len(), |i: int| a[i].wrapping_add(b[i]))
}

/// Each element of `a` minus the matching element of `b`, wrapping.
pub open spec fn sub16(a: Seq<i16>, b: Seq<i16>) -> Seq<i16> {
    Seq::new(a.len(), |i: int| a[i].wrapping_sub(b[i]))
}

/// Each element of `a` plus the matching weight of `w`, wrapping.
pub open spec fn add16_widening(a: Seq<i16>, w: Seq<i8>) -> Seq<i16> {
    Seq::new(a.len(), |i: int| a[i].wrapping_add(w[i] as i16))
}

/// Each element of `a` minus the matching weight of `w`, wrapping.
pub open spec fn sub16_widening(a: Seq<i16>, w: Seq<i8>) -> Seq<i16> {
    Seq::new(a.len(), |i: int| a[i].wrapping_sub(w[i] as i16))
}

/// Each element of `a` plus the matching element of `b`, wrapping.
pub open spec fn add32(a: Seq<i32>, b: Seq<i32>) -> Seq<i32> {
    Seq::new(a.len(), |i: int| a[i].wrapping_add(b[i]))
}

/// Each element of `a` minus the matching element of `b`, wrapping.
pub open spec fn sub32(a: Seq<i32>, b: Seq<i32>) -> Seq<i32> {
    Seq::new(a.len(), |i: int| a[i].wrapping_sub(b[i]))
}

/// `x` clamped to `[lo, hi]`.
pub open spec fn clamp(x: int, lo: int, hi: int) -> int {
    if x < lo {
        lo
    } else if x > hi {
        hi
    } else {
        x
    }
}

/// Output byte `j` of the feature transform: the clamped sums of the two
/// halves of the accumulators, multiplied and divided by 512.
pub open spec fn transformed(psq: Seq<i16>, threat: Seq<i16>, j: int) -> u8 {
    let s0 = clamp(psq[j] + threat[j], 0, 255);
    let s1 = clamp(psq[j + 512] + threat[j + 512], 0, 255);
    ((s0 * s1) / 512) as u8
}

/// The clipped ReLU of `x`: shifted right, clamped to `[0, 127]`.
pub open spec fn relu(x: i32, shift: u32) -> u8 {
    clamp((x >> shift) as int, 0, 127) as u8
}

/// The squared clipped ReLU of `x`: squared, shifted right by
/// `2 * shift + 7`, capped at 127.
pub open spec fn sqr_relu(x: i32, shift: u32) -> u8 {
    let sq = ((x as int * x as int) as i64) >> ((2 * shift + 7) as u64);
    (if sq > 127 {
        127
    } else {
        sq
    }) as u8
}

/// Output `o` of a dense layer after the first `n` inputs: the bias plus,
/// wrapping, each input times its weight.
pub open spec fn dense_out(input: Seq<u8>, weights: Seq<i8>, bias: i32, out_dim: int, o: int, n: int) -> i32
    decreases n,
{
    if n <= 0 {
        bias
    } else {
        dense_out(input, weights, bias, out_dim, o, n - 1).wrapping_add(
            (input[n - 1] as i32 * weights[(n - 1) * out_dim + o] as i32) as i32,
        )
    }
}

/// The sum of the first `n` elements of `data`, wrapping.
pub open spec fn wrapping_sum(data: Seq<i32>, n: int) -> i32
    decreases n,
{
    if n <= 0 {
        0
    } else {
        wrapping_sum(data, n - 1).wrapping_add(data[n - 1])
    }
}

/// Block `k` (bytes `4k` to `4k + 3`) of `input` holds a non-zero byte.
pub open spec fn block_nonzero(input: Seq<u8>, k: int) -> bool {
    input[4 * k] != 0 || input[4 * k + 1] != 0 || input[4 * k + 2] != 0 || input[4 * k + 3] != 0
}

/// The non-zero blocks among the first `k`, in increasing order.
pub open spec fn nonzero_blocks(input: Seq<u8>, k: int) -> Seq<usize>
    decreases k,
{
    if k <= 0 {
        seq![]
    } else if block_nonzero(input, k - 1) {
        nonzero_blocks(input, k - 1).push((k - 1) as usize)
    } else {
        nonzero_blocks(input, k - 1)
    }
}

/// Output `o` of a sparse dense layer after the first `n` listed blocks:
/// the bias plus, wrapping, each input byte of those blocks (within the
/// input) times its weight.
pub open spec fn sparse_out(
    input: Seq<u8>,
    weights: Seq<i8>,
    bias: i32,
    out_dim: int,
    o: int,
    blocks: Seq<usize>,
    n: int,
) -> i32
    decreases n,
{
    if n <= 0 {
        bias
    } else {
        block_add(input, weights, sparse_out(input, weights, bias, out_dim, o, blocks, n - 1), out_dim, o, blocks[n - 1] as int, 4)
    }
}

/// `acc` plus, wrapping, the first `m` bytes of block `b` times their weights.
pub open spec fn block_add(input: Seq<u8>, weights: Seq<i8>, acc: i32, out_dim: int, o: int, b: int, m: int) -> i32
    decreases m,
{
    if m <= 0 {
        acc
    } else {
        let idx = 4 * b + m - 1;
        let prev = block_add(input, weights, acc, out_dim, o, b, m - 1);
        if idx < input.len() {
            prev.wrapping_add((input[idx] as i32 * weights[idx * out_dim + o] as i32) as i32)
        } else {
            prev
        }
    }
}

/// The sparse sum reads only the first `n` listed blocks.
proof fn lemma_sparse_prefix(
    input: Seq<u8>,
    weights: Seq<i8>,
    bias: i32,
    out_dim: int,
    o: int,
    a: Seq<usize>,
    b: Seq<usize>,
    n: int,
)
    requires
        n <= a.len(),
        n <= b.len(),
        forall|i: int| 0 <= i < n ==> #[trigger] a[i] == b[i],
    ensures
        sparse_out(input, weights, bias, out_dim, o, a, n) == sparse_out(input, weights, bias, out_dim, o, b, n),
    decreases n,
{
    if n > 0 {
        lemma_sparse_prefix(input, weights, bias, out_dim, o, a, b, n - 1);
        assert(a[n - 1] == b[n - 1]);
    }
}

/// Adding the first `m` bytes of block `k` to the dense sum over the bytes
/// before it gives the dense sum up to those bytes.
proof fn lemma_block_is_dense(input: Seq<u8>, weights: Seq<i8>, bias: i32, out_dim: int, o: int, k: int, m: int)
    requires
        0 <= k,
        0 <= m <= 4,
        4 * k + m <= input.len(),
    ensures
        block_add(input, weights, dense_out(input, weights, bias, out_dim, o, 4 * k), out_dim, o, k, m)
            == dense_out(input, weights, bias, out_dim, o, 4 * k + m),
    decreases m,
{
    if m > 0 {
        lemma_block_is_dense(input, weights, bias, out_dim, o, k, m - 1);
    }
}

/// A block of zero bytes leaves the dense sum as it was.
proof fn lemma_zero_block(input: Seq<u8>, weights: Seq<i8>, bias: i32, out_dim: int, o: int, k: int, m: int)
    requires
        0 <= k,
        0 <= m <= 4,
        4 * k + 4 <= input.len(),
        !block_nonzero(input, k),
    ensures
        dense_out(input, weights, bias, out_dim, o, 4 * k + m) == dense_out(input, weights, bias, out_dim, o, 4 * k),
    decreases m,
{
    if m > 0 {
        lemma_zero_block(input, weights, bias, out_dim, o, k, m - 1);
        let x = input[4 * k + m - 1];
        let w = weights[(4 * k + m - 1) * out_dim + o];
        assert(x as i32 * w as i32 == 0) by (nonlinear_arith)
            requires
                x == 0,
        ;
    }
}

proof fn lemma_sparse_dense_upto(input: Seq<u8>, weights: Seq<i8>, bias: i32, out_dim: int, o: int, k: int)
    requires
        0 <= k,
        4 * k <= input.len(),
        input.len() <= usize::MAX,
    ensures
        sparse_out(input, weights, bias, out_dim, o, nonzero_blocks(input, k), nonzero_blocks(input, k).len() as int)
            == dense_out(input, weights, bias, out_dim, o, 4 * k),
    decreases k,
{
    if k > 0 {
        let prev = nonzero_blocks(input, k - 1);
        lemma_sparse_dense_upto(input, weights, bias, out_dim, o, k - 1);
        if block_nonzero(input, k - 1) {
            let cur = prev.push((k - 1) as usize);
            lemma_sparse_prefix(input, weights, bias, out_dim, o, cur, prev, prev.len() as int);
            lemma_block_is_dense(input, weights, bias, out_dim, o, k - 1, 4);
            let n = prev.len() as int;
            assert(nonzero_blocks(input, k) == cur);
            assert(cur[n] as int == k - 1);
            assert(4 * (k - 1) + 4 == 4 * k);
            assert(sparse_out(input, weights, bias, out_dim, o, cur, n + 1) == block_add(
                input,
                weights,
                sparse_out(input, weights, bias, out_dim, o, cur, n),
                out_dim,
                o,
                cur[n] as int,
                4,
            ));
        } else {
            lemma_zero_block(input, weights, bias, out_dim, o, k - 1, 4);
            assert(4 * (k - 1) + 4 == 4 * k);
            assert(nonzero_blocks(input, k) == prev);
        }
    }
}

/// The sparse dense layer fed with the non-zero blocks of its input (as
/// `find_nnz` lists them) computes what the dense layer computes, for an
/// input made of whole blocks.
pub proof fn lemma_sparse_matches_dense(input: Seq<u8>, weights: Seq<i8>, bias: i32, out_dim: int, o: int)
    requires
        input.len() % 4 == 0,
        input.len() <= usize::MAX,
    ensures
        sparse_out(
            input,
            weights,
            bias,
            out_dim,
            o,
            nonzero_blocks(input, (input.len() / 4) as int),
            nonzero_blocks(input, (input.len() / 4) as int).len() as int,
        ) == dense_out(input, weights, bias, out_dim, o, input.len() as int),
{
    lemma_sparse_dense_upto(input, weights, bias, out_dim, o, (input.len() / 4) as int);
}

/// The product that input byte `i` adds to output `o`.
pub open spec fn dense_term(input: Seq<u8>, weights: Seq<i8>, out_dim: int, o: int, i: int) -> int {
    ((input[i] as i32 * weights[i * out_dim + o] as i32) as i32) as int
}

/// The exact sum of the products of the first `n` input bytes.
pub open spec fn dense_total(input: Seq<u8>, weights: Seq<i8>, out_dim: int, o: int, n: int) -> int
    decreases n,
{
    if n <= 0 {
        0
    } else {
        dense_total(input, weights, out_dim, o, n - 1) + dense_term(input, weights, out_dim, o, n - 1)
    }
}

/// The exact sum of the products of the first `m` bytes of block `b` that
/// lie within the input.
pub open spec fn block_total(input: Seq<u8>, weights: Seq<i8>, out_dim: int, o: int, b: int, m: int) -> int
    decreases m,
{
    if m <= 0 {
        0
    } else {
        block_total(input, weights, out_dim, o, b, m - 1) + if 4 * b + m - 1 < input.len() {
            dense_term(input, weights, out_dim, o, 4 * b + m - 1)
        } else {
            0
        }
    }
}

/// The exact sum of the block totals of the first `n` listed blocks.
pub open spec fn listed_total(input: Seq<u8>, weights: Seq<i8>, out_dim: int, o: int, blocks: Seq<usize>, n: int) -> int
    decreases n,
{
    if n <= 0 {
        0
    } else {
        listed_total(input, weights, out_dim, o, blocks, n - 1) + block_total(input, weights, out_dim, o, blocks[n - 1] as int, 4)
    }
}

/// The exact sum of the block totals of those of the first `k` blocks that
/// `blocks` holds.
pub open spec fn held_total(input: Seq<u8>, weights: Seq<i8>, out_dim: int, o: int, blocks: Seq<usize>, k: int) -> int
    decreases k,
{
    if k <= 0 {
        0
    } else {
        held_total(input, weights, out_dim, o, blocks, k - 1) + if blocks.contains((k - 1) as usize) {
            block_total(input, weights, out_dim, o, k - 1, 4)
        } else {
            0
        }
    }
}

/// The exact sum of the block totals of the first `k` blocks.
pub open spec fn all_blocks_total(input: Seq<u8>, weights: Seq<i8>, out_dim: int, o: int, k: int) -> int
    decreases k,
{
    if k <= 0 {
        0
    } else {
        all_blocks_total(input, weights, out_dim, o, k - 1) + block_total(input, weights, out_dim, o, k - 1, 4)
    }
}

proof fn lemma_mod_sum(a: int, b: int)
    requires
        a % 0x1_0000_0000 == 0,
        b % 0x1_0000_0000 == 0,
    ensures
        (a + b) % 0x1_0000_0000 == 0,
{
    assert((a + b) % 0x1_0000_0000 == 0) by (nonlinear_arith)
        requires
            a % 0x1_0000_0000 == 0,
            b % 0x1_0000_0000 == 0,
    ;
}

proof fn lemma_wrapping_step(x: i32, y: i32)
    ensures
        (x.wrapping_add(y) - x - y) % 0x1_0000_0000 == 0,
{
    let d = x.wrapping_add(y) - x - y;
    assert(d == 0 || d == 0x1_0000_0000 || d == -0x1_0000_0000);
}

proof fn lemma_dense_out_total(input: Seq<u8>, weights: Seq<i8>, bias: i32, out_dim: int, o: int, n: int)
    ensures
        (dense_out(input, weights, bias, out_dim, o, n) - bias - dense_total(input, weights, out_dim, o, n)) % 0x1_0000_0000 == 0,
    decreases n,
{
    if n > 0 {
        lemma_dense_out_total(input, weights, bias, out_dim, o, n - 1);
        let prev = dense_out(input, weights, bias, out_dim, o, n - 1);
        let t = (input[n - 1] as i32 * weights[(n - 1) * out_dim + o] as i32) as i32;
        lemma_wrapping_step(prev, t);
        lemma_mod_sum(
            prev.wrapping_add(t) - prev - t,
            prev - bias - dense_total(input, weights, out_dim, o, n - 1),
        );
    }
}

proof fn lemma_block_add_total(input: Seq<u8>, weights: Seq<i8>, acc: i32, out_dim: int, o: int, b: int, m: int)
    ensures
        (block_add(input, weights, acc, out_dim, o, b, m) - acc - block_total(input, weights, out_dim, o, b, m)) % 0x1_0000_0000 == 0,
    decreases m,
{
    if m > 0 {
        lemma_block_add_total(input, weights, acc, out_dim, o, b, m - 1);
        let idx = 4 * b + m - 1;
        if idx < input.len() {
            let prev = block_add(input, weights, acc, out_dim, o, b, m - 1);
            let t = (input[idx] as i32 * weights[idx * out_dim + o] as i32) as i32;
            lemma_wrapping_step(prev, t);
            lemma_mod_sum(
                prev.wrapping_add(t) - prev - t,
                prev - acc - block_total(input, weights, out_dim, o, b, m - 1),
            );
        }
    }
}

proof fn lemma_sparse_out_total(input: Seq<u8>, weights: Seq<i8>, bias: i32, out_dim: int, o: int, blocks: Seq<usize>, n: int)
    ensures
        (sparse_out(input, weights, bias, out_dim, o, blocks, n) - bias - listed_total(input, weights, out_dim, o, blocks, n))
            % 0x1_0000_0000 == 0,
    decreases n,
{
    if n > 0 {
        lemma_sparse_out_total(input, weights, bias, out_dim, o, blocks, n - 1);
        let prev = sparse_out(input, weights, bias, out_dim, o, blocks, n - 1);
        let b = blocks[n - 1] as int;
        lemma_block_add_total(input, weights, prev, out_dim, o, b, 4);
        lemma_mod_sum(
            block_add(input, weights, prev, out_dim, o, b, 4) - prev - block_total(input, weights, out_dim, o, b, 4),
            prev - bias - listed_total(input, weights, out_dim, o, blocks, n - 1),
        );
    }
}

/// Within the input, the products of block `k` extend the dense sum of the
/// bytes before it.
proof fn lemma_block_total_dense(input: Seq<u8>, weights: Seq<i8>, out_dim: int, o: int, k: int, m: int)
    requires
        0 <= k,
        0 <= m <= 4,
        4 * k <= input.len(),
    ensures
        dense_total(input, weights, out_dim, o, 4 * k) + block_total(input, weights, out_dim, o, k, m)
            == dense_total(input, weights, out_dim, o, if 4 * k + m <= input.len() { 4 * k + m } else { input.len() as int }),
    decreases m,
{
    if m > 0 {
        lemma_block_total_dense(input, weights, out_dim, o, k, m - 1);
    }
}

proof fn lemma_all_blocks_dense(input: Seq<u8>, weights: Seq<i8>, out_dim: int, o: int, k: int)
    requires
        0 <= k,
        4 * k <= input.len() + 3,
    ensures
        all_blocks_total(input, weights, out_dim, o, k)
            == dense_total(input, weights, out_dim, o, if 4 * k <= input.len() { 4 * k } else { input.len() as int }),
    decreases k,
{
    if k > 0 {
        lemma_all_blocks_dense(input, weights, out_dim, o, k - 1);
        lemma_block_total_dense(input, weights, out_dim, o, k - 1, 4);
    }
}

/// Adding a block that a list does not hold adds its total to what the list
/// holds.
proof fn lemma_held_push(input: Seq<u8>, weights: Seq<i8>, out_dim: int, o: int, blocks: Seq<usize>, x: usize, k: int)
    requires
        !blocks.contains(x),
        k <= usize::MAX + 1,
    ensures
        held_total(input, weights, out_dim, o, blocks.push(x), k) == held_total(input, weights, out_dim, o, blocks, k) + if 0
            <= x < k {
            block_total(input, weights, out_dim, o, x as int, 4)
        } else {
            0
        },
    decreases k,
{
    if k > 0 {
        lemma_held_push(input, weights, out_dim, o, blocks, x, k - 1);
        let b = (k - 1) as usize;
        let pushed = blocks.push(x);
        if blocks.contains(b) {
            let i = choose|i: int| 0 <= i < blocks.len() && blocks[i] == b;
            assert(pushed[i] == b);
        }
        if b == x {
            assert(pushed[blocks.len() as int] == b);
        }
        if pushed.contains(b) && b != x {
            let i = choose|i: int| 0 <= i < pushed.len() && pushed[i] == b;
            assert(i < blocks.len());
            assert(blocks[i] == b);
        }
    }
}

proof fn lemma_listed_held(input: Seq<u8>, weights: Seq<i8>, out_dim: int, o: int, blocks: Seq<usize>, k: int, n: int)
    requires
        0 <= n <= blocks.len(),
        forall|i: int, j: int| 0 <= i < j < blocks.len() ==> blocks[i] != blocks[j],
        forall|j: int| 0 <= j < blocks.len() ==> blocks[j] < k,
        k <= usize::MAX + 1,
    ensures
        listed_total(input, weights, out_dim, o, blocks, n) == held_total(input, weights, out_dim, o, blocks.take(n), k),
    decreases n,
{
    if n == 0 {
        assert forall|b: int| 0 <= b <= k implies held_total(input, weights, out_dim, o, blocks.take(0), b) == 0 by {
            lemma_held_empty(input, weights, out_dim, o, blocks.take(0), b);
        }
    } else {
        lemma_listed_held(input, weights, out_dim, o, blocks, k, n - 1);
        let prev = blocks.take(n - 1);
        let x = blocks[n - 1];
        if prev.contains(x) {
            let i = choose|i: int| 0 <= i < prev.len() && prev[i] == x;
            assert(blocks[i] == blocks[n - 1]);
        }
        assert(blocks.take(n) =~= prev.push(x));
        lemma_held_push(input, weights, out_dim, o, prev, x, k);
    }
}

proof fn lemma_held_empty(input: Seq<u8>, weights: Seq<i8>, out_dim: int, o: int, blocks: Seq<usize>, k: int)
    requires
        blocks.len() == 0,
    ensures
        held_total(input, weights, out_dim, o, blocks, k) == 0,
    decreases k,
{
    if k > 0 {
        lemma_held_empty(input, weights, out_dim, o, blocks, k - 1);
        assert(!blocks.contains((k - 1) as usize));
    }
}

proof fn lemma_unheld_zero(input: Seq<u8>, weights: Seq<i8>, out_dim: int, o: int, b: int, m: int)
    requires
        0 <= b,
        0 <= m <= 4,
        forall|i: int| 4 * b <= i < 4 * b + 4 && i < input.len() ==> input[i] == 0,
    ensures
        block_total(input, weights, out_dim, o, b, m) == 0,
    decreases m,
{
    if m > 0 {
        lemma_unheld_zero(input, weights, out_dim, o, b, m - 1);
        if 4 * b + m - 1 < input.len() {
            let x = input[4 * b + m - 1];
            let w = weights[(4 * b + m - 1) * out_dim + o];
            assert(x as i32 * w as i32 == 0) by (nonlinear_arith)
                requires
                    x == 0,
            ;
        }
    }
}

proof fn lemma_held_all(input: Seq<u8>, weights: Seq<i8>, out_dim: int, o: int, blocks: Seq<usize>, k: int)
    requires
        forall|i: int| 0 <= i < input.len() && input[i] != 0 ==> blocks.contains((i / 4) as usize),
        k <= usize::MAX + 1,
    ensures
        held_total(input, weights, out_dim, o, blocks, k) == all_blocks_total(input, weights, out_dim, o, k),
    decreases k,
{
    if k > 0 {
        lemma_held_all(input, weights, out_dim, o, blocks, k - 1);
        let b = k - 1;
        if !blocks.contains(b as usize) {
            assert forall|i: int| 4 * b <= i < 4 * b + 4 && i < input.len() implies input[i] == 0 by {
                assert(i / 4 == b);
            }
            lemma_unheld_zero(input, weights, out_dim, o, b, 4);
        }
    }
}

/// The sparse dense layer fed with any list of distinct blocks within the
/// input that names every block holding a non-zero byte computes what the
/// dense layer computes.
pub proof fn lemma_sparse_any_cover_matches_dense(
    input: Seq<u8>,
    weights: Seq<i8>,
    bias: i32,
    out_dim: int,
    o: int,
    blocks: Seq<usize>,
)
    requires
        forall|j: int| 0 <= j < blocks.len() ==> 4 * #[trigger] blocks[j] < input.len(),
        forall|i: int, j: int| 0 <= i < j < blocks.len() ==> blocks[i] != blocks[j],
        forall|i: int| 0 <= i < input.len() && #[trigger] input[i] != 0 ==> blocks.contains((i / 4) as usize),
        input.len() <= usize::MAX,
    ensures
        sparse_out(input, weights, bias, out_dim, o, blocks, blocks.len() as int) == dense_out(
            input,
            weights,
            bias,
            out_dim,
            o,
            input.len() as int,
        ),
{
    let n = blocks.len() as int;
    let k: int = ((input.len() + 3) / 4) as int;
    lemma_sparse_out_total(input, weights, bias, out_dim, o, blocks, n);
    lemma_dense_out_total(input, weights, bias, out_dim, o, input.len() as int);
    lemma_listed_held(input, weights, out_dim, o, blocks, k, n);
    assert(blocks.take(n) =~= blocks);
    lemma_held_all(input, weights, out_dim, o, blocks, k);
    lemma_all_blocks_dense(input, weights, out_dim, o, k);
    let s = sparse_out(input, weights, bias, out_dim, o, blocks, n);
    let d = dense_out(input, weights, bias, out_dim, o, input.len() as int);
    let t = dense_total(input, weights, out_dim, o, input.len() as int);
    assert((s - bias - t) % 0x1_0000_0000 == 0);
    assert((d - bias - t) % 0x1_0000_0000 == 0);
    assert(s == d) by (nonlinear_arith)
        requires
            (s - bias - t) % 0x1_0000_0000 == 0,
            (d - bias - t) % 0x1_0000_0000 == 0,
            i32::MIN <= s <= i32::MAX,
            i32::MIN <= d <= i32::MAX,
    ;
}

/// The shape a dense layer needs: enough input, weights, biases and output.
pub open spec fn dense_shape(input_len: int, weights_len: int, biases_len: int, output_len: int, in_dim: int, out_dim: int) -> bool {
    &&& input_len >= in_dim
    &&& weights_len >= in_dim * out_dim
    &&& biases_len >= out_dim
    &&& output_len >= out_dim
}

/// The integer kernels of the network. Vector operations take equal
/// lengths and wrap; the feature transform takes two accumulators of 1024
/// and at least 512 output bytes; activations need output covering the input
/// and shifts below 32 (up to 28 when squared); dense layers need complete
/// input-major weight matrices and enough biases and output; sparse block
/// indices must name blocks of the input.
pub trait SimdOps {
    fn vec_add_i16(a: &mut [i16], b: &[i16])
        requires
            old(a)@.len() == b@.len(),
        ensures
            final(a)@ == add16(old(a)@, b@),
    ;

    fn vec_sub_i16(a: &mut [i16], b: &[i16])
        requires
            old(a)@.len() == b@.len(),
        ensures
            final(a)@ == sub16(old(a)@, b@),
    ;

    fn vec_add_i32(a: &mut [i32], b: &[i32])
        requires
            old(a)@.len() == b@.len(),
        ensures
            final(a)@ == add32(old(a)@, b@),
    ;

    fn vec_sub_i32(a: &mut [i32], b: &[i32])
        requires
            old(a)@.len() == b@.len(),
        ensures
            final(a)@ == sub32(old(a)@, b@),
    ;

    /// Adds each weight, widened, to the accumulator.
    fn vec_add_i16_widening(acc: &mut [i16], weights: &[i8])
        requires
            old(acc)@.len() == weights@.len(),
        ensures
            final(acc)@ == add16_widening(old(acc)@, weights@),
    ;

    /// Subtracts each weight, widened, from the accumulator.
    fn vec_sub_i16_widening(acc: &mut [i16], weights: &[i8])
        requires
            old(acc)@.len() == weights@.len(),
        ensures
            final(acc)@ == sub16_widening(old(acc)@, weights@),
    ;

    fn transform_features(psq_acc: &[i16], threat_acc: &[i16], output: &mut [u8])
        requires
            psq_acc@.len() == 1024,
            threat_acc@.len() == 1024,
            old(output)@.len() >= 512,
        ensures
            final(output)@.len() == old(output)@.len(),
            forall|j: int| 0 <= j < 512 ==> #[trigger] final(output)@[j] == transformed(psq_acc@, threat_acc@, j),
            forall|j: int| 512 <= j < old(output)@.len() ==> #[trigger] final(output)@[j] == old(output)@[j],
    ;

    fn clipped_relu(input: &[i32], output: &mut [u8], shift: u32)
        requires
            old(output)@.len() >= input@.len(),
            shift < 32,
        ensures
            final(output)@.len() == old(output)@.len(),
            forall|i: int| 0 <= i < input@.len() ==> #[trigger] final(output)@[i] == relu(input@[i], shift),
            forall|i: int| input@.len() <= i < old(output)@.len() ==> #[trigger] final(output)@[i] == old(output)@[i],
    ;

    fn sqr_clipped_relu(input: &[i32], output: &mut [u8], shift: u32)
        requires
            old(output)@.len() >= input@.len(),
            shift <= 28,
        ensures
            final(output)@.len() == old(output)@.len(),
            forall|i: int| 0 <= i < input@.len() ==> #[trigger] final(output)@[i] == sqr_relu(input@[i], shift),
            forall|i: int| input@.len() <= i < old(output)@.len() ==> #[trigger] final(output)@[i] == old(output)@[i],
    ;

    fn affine_propagate(
        input: &[u8],
        weights: &[i8],
        biases: &[i32],
        output: &mut [i32],
        in_dim: usize,
        out_dim: usize,
    )
        requires
            dense_shape(input@.len() as int, weights@.len() as int, biases@.len() as int, old(output)@.len() as int, in_dim as int, out_dim as int),
        ensures
            final(output)@.len() == old(output)@.len(),
            forall|o: int| 0 <= o < out_dim ==> #[trigger] final(output)@[o] == dense_out(input@, weights@, biases@[o], out_dim as int, o, in_dim as int),
            forall|o: int| out_dim <= o < old(output)@.len() ==> #[trigger] final(output)@[o] == old(output)@[o],
    ;

    fn horizontal_sum_i32(data: &[i32]) -> (r: i32)
        ensures
            r == wrapping_sum(data@, data@.len() as int),
    ;

    /// Lists the non-zero four-byte blocks of `input` in increasing order
    /// and returns how many there are.
    fn find_nnz(input: &[u8], nnz_indices: &mut [usize; 256]) -> (n: usize)
        requires
            input@.len() / 4 <= MAX_NNZ,
        ensures
            n == nonzero_blocks(input@, (input@.len() / 4) as int).len(),
            forall|k: int| 0 <= k < n ==> #[trigger] final(nnz_indices)@[k] == nonzero_blocks(input@, (input@.len() / 4) as int)[k],
            forall|k: int| n <= k < 256 ==> #[trigger] final(nnz_indices)@[k] == old(nnz_indices)@[k],
    ;

    fn affine_propagate_sparse(
        input: &[u8],
        weights: &[i8],
        biases: &[i32],
        output: &mut [i32],
        out_dim: usize,
        nnz_indices: &[usize],
    )
        requires
            dense_shape(input@.len() as int, weights@.len() as int, biases@.len() as int, old(output)@.len() as int, input@.len() as int, out_dim as int),
            forall|k: int| 0 <= k < nnz_indices@.len() ==> 4 * #[trigger] nnz_indices@[k] < input@.len(),
        ensures
            final(output)@.len() == old(output)@.len(),
            forall|o: int| 0 <= o < out_dim ==> #[trigger] final(output)@[o] == sparse_out(input@, weights@, biases@[o], out_dim as int, o, nnz_indices@, nnz_indices@.len() as int),
            forall|o: int| out_dim <= o < old(output)@.len() ==> #[trigger] final(output)@[o] == old(output)@[o],
    ;
}

/// A family of kernels.
#[derive(Clone, Copy, PartialEq, Eq, Debug, Structural)]
pub enum SimdBackend {
    /// Element by element, on any CPU.
    Scalar,
    /// ARM NEON vectors.
    Neon,
    /// x86-64 AVX2 vectors.
    Avx2,
}

impl SimdBackend {
    /// Whether this build can run the backend. Only the portable kernels are
    /// built; the vector families compute the same results.
    pub fn is_supported(self) -> (r: bool)
        ensures
            r == (self == SimdBackend::Scalar),
    {
        match self {
            SimdBackend::Scalar => true,
            _ => false,
        }
    }

    /// The backend's display name.
    pub fn name(self) -> (s: String)
        ensures
            s@ == match self {
                SimdBackend::Scalar => "Scalar"@,
                SimdBackend::Neon => "NEON"@,
                SimdBackend::Avx2 => "AVX2"@,
            },
    {
        match self {
            SimdBackend::Scalar => "Scalar".to_owned(),
            SimdBackend::Neon => "NEON".to_owned(),
            SimdBackend::Avx2 => "AVX2".to_owned(),
        }
    }
}

/// The backend to use: the best one this build can run.
pub fn detect_backend() -> (b: SimdBackend)
    ensures
        b == SimdBackend::Scalar,
{
    SimdBackend::Scalar
}

/// The kernels of one supported backend.
pub struct Dispatch {
    backend: SimdBackend,
}

impl Dispatch {
    /// The backend chosen.
    pub closed spec fn chosen(&self) -> SimdBackend {
        self.backend
    }

    pub fn new() -> (d: Dispatch)
        ensures
            d.chosen() == SimdBackend::Scalar,
    {
        Dispatch { backend: detect_backend() }
    }

    /// Uses `backend`, which this build must support.
    pub fn with_backend(backend: SimdBackend) -> (d: Dispatch)
        requires
            backend == SimdBackend::Scalar,
        ensures
            d.chosen() == backend,
    {
        Dispatch { backend }
    }

    pub fn backend(&self) -> (b: SimdBackend)
        ensures
            b == self.chosen(),
    {
        self.backend
    }

    pub fn vec_add_i16(&self, a: &mut [i16], b: &[i16])
        requires
            old(a)@.len() == b@.len(),
        ensures
            final(a)@ == add16(old(a)@, b@),
    {
        scalar::Scalar::vec_add_i16(a, b);
    }

    pub fn vec_sub_i16(&self, a: &mut [i16], b: &[i16])
        requires
            old(a)@.len() == b@.len(),
        ensures
            final(a)@ == sub16(old(a)@, b@),
    {
        scalar::Scalar::vec_sub_i16(a, b);
    }

    pub fn vec_add_i16_widening(&self, acc: &mut [i16], weights: &[i8])
        requires
            old(acc)@.len() == weights@.len(),
        ensures
            final(acc)@ == add16_widening(old(acc)@, weights@),
    {
        scalar::Scalar::vec_add_i16_widening(acc, weights);
    }

    pub fn vec_sub_i16_widening(&self, acc: &mut [i16], weights: &[i8])
        requires
            old(acc)@.len() == weights@.len(),
        ensures
            final(acc)@ == sub16_widening(old(acc)@, weights@),
    {
        scalar::Scalar::vec_sub_i16_widening(acc, weights);
    }

    pub fn vec_add_i32(&self, a: &mut [i32], b: &[i32])
        requires
            old(a)@.len() == b@.len(),
        ensures
            final(a)@ == add32(old(a)@, b@),
    {
        scalar::Scalar::vec_add_i32(a, b);
    }

    pub fn vec_sub_i32(&self, a: &mut [i32], b: &[i32])
        requires
            old(a)@.len() == b@.len(),
        ensures
            final(a)@ == sub32(old(a)@, b@),
    {
        scalar::Scalar::vec_sub_i32(a, b);
    }

    pub fn transform_features(&self, psq_acc: &[i16], threat_acc: &[i16], output: &mut [u8])
        requires
            psq_acc@.len() == 1024,
            threat_acc@.len() == 1024,
            old(output)@.len() >= 512,
        ensures
            final(output)@.len() == old(output)@.len(),
            forall|j: int| 0 <= j < 512 ==> #[trigger] final(output)@[j] == transformed(psq_acc@, threat_acc@, j),
            forall|j: int| 512 <= j < old(output)@.len() ==> #[trigger] final(output)@[j] == old(output)@[j],
    {
        scalar::Scalar::transform_features(psq_acc, threat_acc, output);
    }

    pub fn clipped_relu(&self, input: &[i32], output: &mut [u8], shift: u32)
        requires
            old(output)@.len() >= input@.len(),
            shift < 32,
        ensures
            final(output)@.len() == old(output)@.len(),
            forall|i: int| 0 <= i < input@.len() ==> #[trigger] final(output)@[i] == relu(input@[i], shift),
            forall|i: int| input@.len() <= i < old(output)@.len() ==> #[trigger] final(output)@[i] == old(output)@[i],
    {
        scalar::Scalar::clipped_relu(input, output, shift);
    }

    pub fn sqr_clipped_relu(&self, input: &[i32], output: &mut [u8], shift: u32)
        requires
            old(output)@.len() >= input@.len(),
            shift <= 28,
        ensures
            final(output)@.len() == old(output)@.len(),
            forall|i: int| 0 <= i < input@.len() ==> #[trigger] final(output)@[i] == sqr_relu(input@[i], shift),
            forall|i: int| input@.len() <= i < old(output)@.len() ==> #[trigger] final(output)@[i] == old(output)@[i],
    {
        scalar::Scalar::sqr_clipped_relu(input, output, shift);
    }

    pub fn affine_propagate(
        &self,
        input: &[u8],
        weights: &[i8],
        biases: &[i32],
        output: &mut [i32],
        in_dim: usize,
        out_dim: usize,
    )
        requires
            dense_shape(input@.len() as int, weights@.len() as int, biases@.len() as int, old(output)@.len() as int, in_dim as int, out_dim as int),
        ensures
            final(output)@.len() == old(output)@.len(),
            forall|o: int| 0 <= o < out_dim ==> #[trigger] final(output)@[o] == dense_out(input@, weights@, biases@[o], out_dim as int, o, in_dim as int),
            forall|o: int| out_dim <= o < old(output)@.len() ==> #[trigger] final(output)@[o] == old(output)@[o],
    {
        scalar::Scalar::affine_propagate(input, weights, biases, output, in_dim, out_dim);
    }

    pub fn horizontal_sum_i32(&self, data: &[i32]) -> (r: i32)
        ensures
            r == wrapping_sum(data@, data@.len() as int),
    {
        scalar::Scalar::horizontal_sum_i32(data)
    }

    pub fn find_nnz(&self, input: &[u8], nnz_indices: &mut [usize; 256]) -> (n: usize)
        requires
            input@.len() / 4 <= MAX_NNZ,
        ensures
            n == nonzero_blocks(input@, (input@.len() / 4) as int).len(),
            forall|k: int| 0 <= k < n ==> #[trigger] final(nnz_indices)@[k] == nonzero_blocks(input@, (input@.len() / 4) as int)[k],
            forall|k: int| n <= k < 256 ==> #[trigger] final(nnz_indices)@[k] == old(nnz_indices)@[k],
    {
        scalar::Scalar::find_nnz(input, nnz_indices)
    }

    pub fn affine_propagate_sparse(
        &self,
        input: &[u8],
        weights: &[i8],
        biases: &[i32],
        output: &mut [i32],
        out_dim: usize,
        nnz_indices: &[usize],
    )
        requires
            dense_shape(input@.len() as int, weights@.len() as int, biases@.len() as int, old(output)@.len() as int, input@.len() as int, out_dim as int),
            forall|k: int| 0 <= k < nnz_indices@.len() ==> 4 * #[trigger] nnz_indices@[k] < input@.len(),
        ensures
            final(output)@.len() == old(output)@.len(),
            forall|o: int| 0 <= o < out_dim ==> #[trigger] final(output)@[o] == sparse_out(input@, weights@, biases@[o], out_dim as int, o, nnz_indices@, nnz_indices@.len() as int),
            forall|o: int| out_dim <= o < old(output)@.len() ==> #[trigger] final(output)@[o] == old(output)@[o],
    {
        scalar::Scalar::affine_propagate_sparse(input, weights, biases, output, out_dim, nnz_indices);
    }
}

} // verus!
