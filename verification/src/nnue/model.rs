//! The network's weights and the layout of the model file.

use vstd::prelude::*;

verus! {

/// Version tag of the model file.
pub const VERSION: u32 = 0x7AF3_2F20;

/// Width of each perspective's accumulator.
pub const TRANSFORMED_DIMS: usize = 1024;

/// Number of piece-square features.
pub const PSQ_DIMS: usize = 16_536;

/// Number of threat features.
pub const THREAT_DIMS: usize = 45_547;

/// Number of material buckets of the piece-square-table output.
pub const PSQT_BUCKETS: usize = 16;

/// Number of layer stacks.
pub const LAYER_STACKS: usize = 16;

/// Outputs of the first layer that feed the second one.
pub const L2_BIG: usize = 31;

/// Outputs of the second layer.
pub const L3_BIG: usize = 32;

/// Fixed-point shift of the layer weights.
pub const WEIGHT_SCALE_BITS: u32 = 6;

/// Divisor of the final output.
pub const OUTPUT_SCALE: i32 = 16;

/// Piece-square features per bucket.
pub const PS_NB: usize = 689;

/// Number of attack buckets.
pub const ATTACK_BUCKET_NB: usize = 4;

/// Number of king buckets.
pub const KING_BUCKET_NB: usize = 6;

/// Outputs of the first layer.
pub const FC0_OUTPUTS: usize = 32;

/// Inputs of the second layer, padded.
pub const FC1_INPUTS_PADDED: usize = 64;

/// Inputs of the third layer.
pub const FC2_INPUTS: usize = 32;

/// Why a model could not be read.
#[derive(Debug)]
pub enum NnueError {
    /// The file could not be read; the text says why.
    Io(String),
    /// The file starts with another version tag.
    InvalidVersion { got: u32 },
    /// The compressed file could not be unpacked; the text says why.
    Zstd(String),
    /// The data ends before a field that starts at `offset`.
    UnexpectedEof { offset: usize },
    /// A compressed block at `offset` does not start with its tag.
    InvalidLeb128Magic { offset: usize },
    /// A compressed block holds another number of values than its layer.
    Leb128CountMismatch { decoded: usize, expected: usize },
}

/// The feature transformer: biases and weights of both feature sets.
pub struct FeatureTransformerWeights {
    pub biases: Box<[i16; 1024]>,
    pub weights: Vec<i8>,
    pub psqt_weights: Vec<i32>,
    pub threat_weights: Vec<i8>,
    pub threat_psqt_weights: Vec<i32>,
}

/// The three dense layers of one layer stack.
pub struct LayerStackWeights {
    pub fc0_biases: Box<[i32; 32]>,
    pub fc0_weights: Vec<i8>,
    pub fc1_biases: Box<[i32; 32]>,
    pub fc1_weights: Vec<i8>,
    pub fc2_biases: Box<[i32; 1]>,
    pub fc2_weights: Vec<i8>,
}

impl LayerStackWeights {
    /// The weight vectors have the sizes of their layers.
    pub open spec fn wf(&self) -> bool {
        &&& self.fc0_weights@.len() == FC0_OUTPUTS * TRANSFORMED_DIMS
        &&& self.fc1_weights@.len() == L3_BIG * FC1_INPUTS_PADDED
        &&& self.fc2_weights@.len() == FC2_INPUTS
    }
}

impl FeatureTransformerWeights {
    /// The weight vectors have the sizes of their feature sets.
    pub open spec fn wf(&self) -> bool {
        &&& self.weights@.len() == PSQ_DIMS * TRANSFORMED_DIMS
        &&& self.psqt_weights@.len() == PSQ_DIMS * PSQT_BUCKETS
        &&& self.threat_weights@.len() == THREAT_DIMS * TRANSFORMED_DIMS
        &&& self.threat_psqt_weights@.len() == THREAT_DIMS * PSQT_BUCKETS
    }
}

/// A loaded network.
pub struct NnueModel {
    pub description: String,
    pub ft: FeatureTransformerWeights,
    pub layer_stacks: Vec<LayerStackWeights>,
}

impl NnueModel {
    /// All weights have their sizes, and there is one layer stack per bucket.
    pub open spec fn wf(&self) -> bool {
        &&& self.ft.wf()
        &&& self.layer_stacks@.len() == LAYER_STACKS
        &&& forall|i: int| 0 <= i < LAYER_STACKS ==> #[trigger] self.layer_stacks@[i].wf()
    }
}


/// The tag that opens a compressed block: `COMPRESSED_LEB128`.
pub open spec fn leb_magic() -> Seq<u8> {
    seq![67u8, 79, 77, 80, 82, 69, 83, 83, 69, 68, 95, 76, 69, 66, 49, 50, 56]
}

/// The little-endian 32-bit number in the four bytes of `d` from `i`.
pub open spec fn le_u32(d: Seq<u8>, i: int) -> int {
    d[i] + 256 * d[i + 1] + 65536 * d[i + 2] + 16777216 * d[i + 3]
}

/// `need` bytes from `p` lie within `d`.
pub open spec fn fits(d: Seq<u8>, p: int, need: int) -> bool {
    p + need <= d.len()
}

/// 128 to the power `k`.
pub open spec fn pow128(k: nat) -> int
    decreases k,
{
    if k == 0 {
        1
    } else {
        128 * pow128((k - 1) as nat)
    }
}

/// Where the group of bytes starting at `p` ends: just past its first byte
/// below 128 (a byte without the continuation bit), or at the end of `s`.
pub open spec fn group_end(s: Seq<u8>, p: int) -> int
    decreases s.len() - p,
{
    if p >= s.len() {
        s.len() as int
    } else if s[p] < 128 {
        p + 1
    } else {
        group_end(s, p + 1)
    }
}

/// The group at `p` has bytes and ends with one below 128.
pub open spec fn terminated(s: Seq<u8>, p: int) -> bool {
    0 <= p < s.len() && s[group_end(s, p) - 1] < 128
}

/// The low seven bits of the `n` bytes from `p`, least significant first.
pub open spec fn payload(s: Seq<u8>, p: int, n: nat) -> int
    decreases n,
{
    if n == 0 {
        0
    } else {
        payload(s, p, (n - 1) as nat) + (s[p + n - 1] % 128) * pow128((n - 1) as nat)
    }
}

/// The value of the group at `p`, read into a `bits`-bit integer before it
/// is cut to that width: the payload, less `128^n` when its `n` bytes hold
/// fewer than `bits` bits and the last byte has its sign bit (64) set.
pub open spec fn leb_value(s: Seq<u8>, p: int, bits: int) -> int {
    let n = (group_end(s, p) - p) as nat;
    payload(s, p, n) - if 7 * n < bits && s[group_end(s, p) - 1] % 128 >= 64 {
        pow128(n)
    } else {
        0
    }
}

/// Where the `k`-th group of `s` starts, reading groups one after another.
pub open spec fn group_start(s: Seq<u8>, k: nat) -> int
    decreases k,
{
    if k == 0 {
        0
    } else {
        group_end(s, group_start(s, (k - 1) as nat))
    }
}

/// How many groups a reader that wants `want` values takes from `s`,
/// counting on from the `k`-th: it stops at the end of `s` or when it has
/// them all.
pub open spec fn count_from(s: Seq<u8>, k: nat, want: nat) -> nat
    decreases want - k,
{
    if k >= want || group_start(s, k) >= s.len() {
        k
    } else {
        count_from(s, k + 1, want)
    }
}

/// How many groups a reader that wants `want` values takes from `s`.
pub open spec fn decoded_count(s: Seq<u8>, want: nat) -> nat {
    count_from(s, 0, want)
}

/// The first `c` groups of `s` are terminated.
pub open spec fn all_terminated(s: Seq<u8>, c: nat) -> bool {
    forall|k: nat| k < c ==> #[trigger] terminated(s, group_start(s, k))
}

/// Each group a reader that wants `want` values takes from `s` has at most
/// `width` bytes.
pub open spec fn groups_fit(s: Seq<u8>, want: nat, width: int) -> bool {
    forall|k: nat|
        k < decoded_count(s, want) ==> #[trigger] group_end(s, group_start(s, k)) <= group_start(s, k)
            + width
}

/// A group ends past its start.
proof fn lemma_group_end_bounds(s: Seq<u8>, p: int)
    requires
        0 <= p,
    ensures
        p < s.len() ==> p < group_end(s, p) <= s.len(),
        p >= s.len() ==> group_end(s, p) == s.len(),
    decreases s.len() - p,
{
    if p < s.len() && s[p] >= 128 {
        lemma_group_end_bounds(s, p + 1);
    }
}

/// Groups start inside `s` or at its end.
proof fn lemma_group_start_bounds(s: Seq<u8>, k: nat)
    ensures
        0 <= group_start(s, k) <= s.len(),
    decreases k,
{
    if k > 0 {
        lemma_group_start_bounds(s, (k - 1) as nat);
        lemma_group_end_bounds(s, group_start(s, (k - 1) as nat));
    }
}

/// Counting from `k` never gives fewer than `k` groups, nor more than `want`
/// when `k` is at most `want`.
proof fn lemma_count_from_bounds(s: Seq<u8>, k: nat, want: nat)
    ensures
        count_from(s, k, want) >= k,
        k <= want ==> count_from(s, k, want) <= want,
    decreases want - k,
{
    if !(k >= want || group_start(s, k) >= s.len()) {
        lemma_count_from_bounds(s, k + 1, want);
    }
}

/// Reads the group at `*pos` of `s` as a `bits`-bit signed value (before it
/// is cut to that width) and moves past it. Running out of bytes is an
/// I/O error, as it is for a reader.
fn decode_group(s: &[u8], pos: &mut usize, bits: u32) -> (r: Result<i64, NnueError>)
    requires
        *old(pos) <= s@.len(),
        bits == 16 || bits == 32,
        group_end(s@, *old(pos) as int) <= *old(pos) + (if bits == 16 {
            3int
        } else {
            5int
        }),
    ensures
        match r {
            Ok(v) => terminated(s@, *old(pos) as int) && v == leb_value(s@, *old(pos) as int, bits as int)
                && *final(pos) == group_end(s@, *old(pos) as int),
            Err(e) => !terminated(s@, *old(pos) as int) && e is Io,
        },
{
    let start = *pos;
    let ghost d = s@;
    let mut acc: i64 = 0;
    let mut mult: i64 = 1;
    let mut n: usize = 0;
    proof {
        lemma_group_end_bounds(d, start as int);
    }
    loop
        invariant
            start == *old(pos),
            start <= d.len(),
            d == s@,
            bits == 16 || bits == 32,
            group_end(d, start as int) <= start + (if bits == 16 {
                3int
            } else {
                5int
            }),
            *pos == start + n,
            n <= 5,
            forall|j: int| start <= j < start + n ==> d[j] >= 128,
            group_end(d, start as int) == group_end(d, start + n),
            acc == payload(d, start as int, n as nat),
            mult == pow128(n as nat),
            0 <= acc < mult,
        decreases d.len() - *pos,
    {
        proof {
            lemma_group_end_bounds(d, start + n);
        }
        if *pos >= s.len() {
            proof {
                if terminated(d, start as int) {
                    assert(d[group_end(d, start as int) - 1] >= 128);
                }
            }
            return Err(NnueError::Io("failed to fill whole buffer".to_owned()));
        }
        let byte = s[*pos];
        proof {
            assert(n < 5 && (bits == 16 ==> n < 3));
            assert(mult <= 268435456) by {
                reveal_with_fuel(pow128, 5);
            }
            let low = (byte % 128) as int;
            assert(0 <= low * mult <= 127 * mult) by (nonlinear_arith)
                requires
                    0 <= low < 128,
                    0 < mult,
            ;
        }
        acc = acc + ((byte % 128) as i64) * mult;
        *pos = *pos + 1;
        n = n + 1;
        if byte < 128 {
            let sign = 7 * n < bits as usize && byte % 128 >= 64;
            let v = if sign {
                acc - mult * 128
            } else {
                acc
            };
            proof {
                assert(group_end(d, start as int) == start + n);
            }
            return Ok(v);
        }
        mult = mult * 128;
    }
}

/// Reads one signed value of at most 16 bits from the group at `*pos` and
/// moves past it.
pub fn decode_signed_leb128_i16(s: &[u8], pos: &mut usize) -> (r: Result<i16, NnueError>)
    requires
        *old(pos) <= s@.len(),
        group_end(s@, *old(pos) as int) <= *old(pos) + 3,
    ensures
        match r {
            Ok(v) => terminated(s@, *old(pos) as int) && v == leb_value(s@, *old(pos) as int, 16) as i16
                && *final(pos) == group_end(s@, *old(pos) as int),
            Err(e) => !terminated(s@, *old(pos) as int) && e is Io,
        },
{
    match decode_group(s, pos, 16) {
        Ok(v) => Ok(#[verifier::truncate] (v as i16)),
        Err(e) => Err(e),
    }
}

/// Reads one signed value of at most 32 bits from the group at `*pos` and
/// moves past it.
pub fn decode_signed_leb128_i32(s: &[u8], pos: &mut usize) -> (r: Result<i32, NnueError>)
    requires
        *old(pos) <= s@.len(),
        group_end(s@, *old(pos) as int) <= *old(pos) + 5,
    ensures
        match r {
            Ok(v) => terminated(s@, *old(pos) as int) && v == leb_value(s@, *old(pos) as int, 32) as i32
                && *final(pos) == group_end(s@, *old(pos) as int),
            Err(e) => !terminated(s@, *old(pos) as int) && e is Io,
        },
{
    match decode_group(s, pos, 32) {
        Ok(v) => Ok(#[verifier::truncate] (v as i32)),
        Err(e) => Err(e),
    }
}


/// A failure to read `need` bytes at `pos`.
fn ensure_remaining(data: &[u8], pos: usize, need: usize) -> (r: Result<(), NnueError>)
    ensures
        data@.len() <= usize::MAX,
        match r {
            Ok(()) => fits(data@, pos as int, need as int),
            Err(e) => !fits(data@, pos as int, need as int) && e == (NnueError::UnexpectedEof { offset: pos }),
        },
{
    if pos > data.len() || need > data.len() - pos {
        Err(NnueError::UnexpectedEof { offset: pos })
    } else {
        Ok(())
    }
}

/// The little-endian 32-bit number at `p`, which must lie in `data`.
fn u32_at(data: &[u8], p: usize) -> (v: u32)
    requires
        fits(data@, p as int, 4),
    ensures
        v == le_u32(data@, p as int),
{
    data[p] as u32 + (data[p + 1] as u32) * 256 + (data[p + 2] as u32) * 65536 + (data[p + 3] as u32)
        * 16777216
}

/// Reads a little-endian 32-bit number at `*pos` and moves past it.
fn read_u32(data: &[u8], pos: &mut usize) -> (r: Result<u32, NnueError>)
    ensures
        data@.len() <= usize::MAX,
        match r {
            Ok(v) => fits(data@, *old(pos) as int, 4) && v == le_u32(data@, *old(pos) as int) && *final(pos)
                == *old(pos) + 4,
            Err(e) => !fits(data@, *old(pos) as int, 4) && e == (NnueError::UnexpectedEof {
                offset: *old(pos),
            }) && *final(pos) == *old(pos),
        },
{
    ensure_remaining(data, *pos, 4)?;
    let v = u32_at(data, *pos);
    *pos = *pos + 4;
    Ok(v)
}

/// What `String::from_utf8_lossy` makes of `bytes`.
pub uninterp spec fn utf8_lossy_text(bytes: Seq<u8>) -> Seq<char>;

/// Decodes `bytes` as UTF-8 with `String::from_utf8_lossy`, which replaces
/// each invalid sequence by U+FFFD. The contract claims that the text is a
/// function of the bytes alone, named `utf8_lossy_text`, and that bytes
/// that are all ASCII (valid UTF-8) come out unchanged.
#[verifier::external_body]
fn text_of_bytes(bytes: &[u8]) -> (s: String)
    ensures
        s@ == utf8_lossy_text(bytes@),
        (forall|i: int| 0 <= i < bytes@.len() ==> #[trigger] bytes@[i] < 128) ==> s@ == Seq::new(
            bytes@.len(),
            |i: int| bytes@[i] as char,
        ),
{
    String::from_utf8_lossy(bytes).into_owned()
}

/// Reads a text of `len` bytes at `*pos` and moves past it.
fn read_string(data: &[u8], pos: &mut usize, len: usize) -> (r: Result<String, NnueError>)
    ensures
        match r {
            Ok(s) => fits(data@, *old(pos) as int, len as int) && s@ == utf8_lossy_text(
                data@.subrange(*old(pos) as int, *old(pos) + len),
            ) && *final(pos) == *old(pos) + len,
            Err(e) => !fits(data@, *old(pos) as int, len as int) && e == (NnueError::UnexpectedEof {
                offset: *old(pos),
            }),
        },
{
    ensure_remaining(data, *pos, len)?;
    let s = text_of_bytes(vstd::slice::slice_subrange(data, *pos, *pos + len));
    *pos = *pos + len;
    Ok(s)
}

/// The `count` bytes of `d` from `p`, each as a signed byte.
pub open spec fn bytes_i8(d: Seq<u8>, p: int, count: nat) -> Seq<i8> {
    Seq::new(count, |i: int| d[p + i] as i8)
}

/// The `count` little-endian 32-bit numbers of `d` from `p`, signed.
pub open spec fn words_i32(d: Seq<u8>, p: int, count: nat) -> Seq<i32> {
    Seq::new(count, |i: int| le_u32(d, p + 4 * i) as i32)
}

/// Reads `count` signed bytes at `*pos` and moves past them.
fn read_i8_vec(data: &[u8], pos: &mut usize, count: usize) -> (r: Result<Vec<i8>, NnueError>)
    ensures
        match r {
            Ok(v) => fits(data@, *old(pos) as int, count as int) && v@ == bytes_i8(
                data@,
                *old(pos) as int,
                count as nat,
            ) && *final(pos) == *old(pos) + count,
            Err(e) => !fits(data@, *old(pos) as int, count as int) && e == (NnueError::UnexpectedEof {
                offset: *old(pos),
            }),
        },
{
    ensure_remaining(data, *pos, count)?;
    let start = *pos;
    let mut v: Vec<i8> = Vec::with_capacity(count);
    let mut i: usize = 0;
    while i < count
        invariant
            fits(data@, start as int, count as int),
            data@.len() <= usize::MAX,
            i <= count,
            v@ == bytes_i8(data@, start as int, i as nat),
        decreases count - i,
    {
        v.push(#[verifier::truncate] (data[start + i] as i8));
        proof {
            assert(v@ =~= bytes_i8(data@, start as int, (i + 1) as nat));
        }
        i = i + 1;
    }
    *pos = start + count;
    Ok(v)
}

/// Reads `count` little-endian signed 32-bit numbers at `*pos` and moves
/// past them.
fn read_i32_vec(data: &[u8], pos: &mut usize, count: usize) -> (r: Result<Vec<i32>, NnueError>)
    requires
        count <= 1024,
    ensures
        match r {
            Ok(v) => fits(data@, *old(pos) as int, 4 * count) && v@ == words_i32(
                data@,
                *old(pos) as int,
                count as nat,
            ) && *final(pos) == *old(pos) + 4 * count,
            Err(e) => !fits(data@, *old(pos) as int, 4 * count) && e == (NnueError::UnexpectedEof {
                offset: *old(pos),
            }),
        },
{
    ensure_remaining(data, *pos, count * 4)?;
    let start = *pos;
    let mut v: Vec<i32> = Vec::with_capacity(count);
    let mut i: usize = 0;
    while i < count
        invariant
            count <= 1024,
            fits(data@, start as int, 4 * count),
            data@.len() <= usize::MAX,
            i <= count,
            v@ == words_i32(data@, start as int, i as nat),
        decreases count - i,
    {
        let w = u32_at(data, start + 4 * i);
        v.push(#[verifier::truncate] (w as i32));
        proof {
            assert(v@ =~= words_i32(data@, start as int, (i + 1) as nat));
        }
        i = i + 1;
    }
    *pos = start + 4 * count;
    Ok(v)
}


/// The header of a compressed block at `p` (its tag and its 32-bit length)
/// and the block itself lie in `d`, and the tag is right.
pub open spec fn leb_header_ok(d: Seq<u8>, p: int) -> bool {
    &&& fits(d, p, 21)
    &&& d.subrange(p, p + 17) == leb_magic()
    &&& fits(d, p + 21, le_u32(d, p + 17))
}

/// The bytes of the compressed block whose header is at `p`.
pub open spec fn leb_block(d: Seq<u8>, p: int) -> Seq<u8> {
    d.subrange(p + 21, p + 21 + le_u32(d, p + 17))
}

/// A block yields `n` values: a reader that wants `n` finds that many
/// groups, all of them terminated.
pub open spec fn leb_holds(s: Seq<u8>, n: nat) -> bool {
    decoded_count(s, n) == n && all_terminated(s, n)
}

/// The first `n` values of the block `s` read into `bits`-bit integers,
/// before they are cut to that width.
pub open spec fn leb_values(s: Seq<u8>, n: nat, bits: int) -> Seq<int> {
    Seq::new(n, |k: int| leb_value(s, group_start(s, k as nat), bits))
}

/// How reading a block of `n` values with its header at `p` fails with `e`:
/// the header or the block runs past the data, the tag is wrong, a group
/// runs past the block, or the block yields another number of values.
pub open spec fn leb_failure(d: Seq<u8>, p: int, n: nat, e: NnueError) -> bool {
    let tag_ok = d.subrange(p, p + 17) == leb_magic();
    let s = leb_block(d, p);
    match e {
        NnueError::UnexpectedEof { offset } => {
            ||| !fits(d, p, 17) && offset == p
            ||| fits(d, p, 17) && tag_ok && !fits(d, p, 21) && offset == p + 17
            ||| fits(d, p, 21) && tag_ok && !fits(d, p + 21, le_u32(d, p + 17)) && offset == p + 21
        },
        NnueError::InvalidLeb128Magic { offset } => fits(d, p, 17) && !tag_ok && offset == p,
        NnueError::Io(_) => leb_header_ok(d, p) && !all_terminated(s, decoded_count(s, n)),
        NnueError::Leb128CountMismatch { decoded, expected } => {
            &&& leb_header_ok(d, p)
            &&& all_terminated(s, decoded_count(s, n))
            &&& decoded == decoded_count(s, n)
            &&& decoded != n
            &&& expected == n
        },
        _ => false,
    }
}

/// Reads the compressed block whose header is at `start`, wanting `n`
/// values of `bits` bits; returns them before they are cut to that width,
/// with the number of bytes the header and block take.
fn read_leb128_block(data: &[u8], start: usize, n: usize, bits: u32) -> (r: Result<(Vec<i64>, usize), NnueError>)
    requires
        bits == 16 || bits == 32,
        leb_header_ok(data@, start as int) ==> groups_fit(
            leb_block(data@, start as int),
            n as nat,
            if bits == 16 {
                3int
            } else {
                5int
            },
        ),
    ensures
        match r {
            Ok((v, used)) => {
                &&& leb_header_ok(data@, start as int)
                &&& leb_holds(leb_block(data@, start as int), n as nat)
                &&& v@.len() == n
                &&& forall|k: int| 0 <= k < n ==> #[trigger] v@[k] == leb_values(leb_block(data@, start as int), n as nat, bits as int)[k]
                &&& used == 21 + le_u32(data@, start as int + 17)
            },
            Err(e) => leb_failure(data@, start as int, n as nat, e),
        },
{
    let ghost d = data@;
    let mut pos = start;
    ensure_remaining(data, pos, 17)?;
    let magic: [u8; 17] = [67, 79, 77, 80, 82, 69, 83, 83, 69, 68, 95, 76, 69, 66, 49, 50, 56];
    proof {
        assert(magic@ =~= leb_magic());
    }
    let mut i: usize = 0;
    while i < 17
        invariant
            fits(d, start as int, 17),
            d == data@,
            data@.len() <= usize::MAX,
            magic@ == leb_magic(),
            i <= 17,
            forall|j: int| 0 <= j < i ==> d[start + j] == leb_magic()[j],
        decreases 17 - i,
    {
        if data[start + i] != magic[i] {
            proof {
                assert(d.subrange(start as int, start + 17)[i as int] != leb_magic()[i as int]);
            }
            return Err(NnueError::InvalidLeb128Magic { offset: start });
        }
        i = i + 1;
    }
    proof {
        assert(d.subrange(start as int, start + 17) =~= leb_magic());
    }
    pos = pos + 17;
    ensure_remaining(data, pos, 4)?;
    let byte_count = u32_at(data, pos) as usize;
    pos = pos + 4;
    ensure_remaining(data, pos, byte_count)?;
    let block = vstd::slice::slice_subrange(data, pos, pos + byte_count);
    let ghost s = block@;
    proof {
        assert(s =~= leb_block(d, start as int));
    }
    pos = pos + byte_count;
    let ghost width: int = if bits == 16 {
        3int
    } else {
        5int
    };
    let mut cursor: usize = 0;
    let mut decoded: usize = 0;
    let mut v: Vec<i64> = Vec::new();
    proof {
        lemma_count_from_bounds(s, 0, n as nat);
    }
    while cursor < block.len() && decoded < n
        invariant
            s == block@,
            d == data@,
            s == leb_block(d, start as int),
            leb_header_ok(d, start as int),
            pos == start + 21 + le_u32(d, start + 17),
            bits == 16 || bits == 32,
            width == (if bits == 16 {
                3int
            } else {
                5int
            }),
            groups_fit(s, n as nat, width),
            cursor == group_start(s, decoded as nat),
            cursor <= s.len(),
            decoded <= n,
            count_from(s, decoded as nat, n as nat) == decoded_count(s, n as nat),
            forall|k: nat| k < decoded ==> #[trigger] terminated(s, group_start(s, k)),
            v@.len() == decoded,
            forall|k: int| 0 <= k < decoded ==> #[trigger] v@[k] == leb_value(s, group_start(s, k as nat), bits as int),
        decreases n - decoded,
    {
        proof {
            lemma_count_from_bounds(s, (decoded + 1) as nat, n as nat);
            assert(group_end(s, group_start(s, decoded as nat)) <= group_start(s, decoded as nat) + width);
        }
        let ghost at = cursor;
        match decode_group(block, &mut cursor, bits) {
            Ok(x) => {
                v.push(x);
                proof {
                    lemma_group_end_bounds(s, at as int);
                }
                decoded = decoded + 1;
            },
            Err(e) => {
                proof {
                    assert(!terminated(s, group_start(s, decoded as nat)));
                }
                return Err(e);
            },
        }
    }
    proof {
        lemma_group_start_bounds(s, decoded as nat);
    }
    if decoded != n {
        return Err(NnueError::Leb128CountMismatch { decoded, expected: n });
    }
    proof {
        assert forall|k: int| 0 <= k < n implies #[trigger] v@[k] == leb_values(s, n as nat, bits as int)[k] by {}
    }
    Ok((v, pos - start))
}

/// Reads a compressed block of signed 16-bit values with its header at
/// `start` into `output`, which it fills; returns the bytes the header and
/// block take. The block is the tag `COMPRESSED_LEB128`, a 32-bit byte
/// count, then the values in signed LEB128.
pub fn read_leb128_i16(data: &[u8], start: usize, output: &mut [i16]) -> (r: Result<usize, NnueError>)
    requires
        leb_header_ok(data@, start as int) ==> groups_fit(
            leb_block(data@, start as int),
            old(output)@.len(),
            3,
        ),
    ensures
        final(output)@.len() == old(output)@.len(),
        match r {
            Ok(used) => {
                &&& leb_header_ok(data@, start as int)
                &&& leb_holds(leb_block(data@, start as int), old(output)@.len())
                &&& used == 21 + le_u32(data@, start as int + 17)
                &&& forall|k: int|
                    0 <= k < old(output)@.len() ==> #[trigger] final(output)@[k] == leb_value(
                        leb_block(data@, start as int),
                        group_start(leb_block(data@, start as int), k as nat),
                        16,
                    ) as i16
            },
            Err(e) => leb_failure(data@, start as int, old(output)@.len(), e),
        },
{
    let n = output.len();
    let (v, used) = read_leb128_block(data, start, n, 16)?;
    let ghost s = leb_block(data@, start as int);
    let mut k: usize = 0;
    while k < n
        invariant
            n == output@.len(),
            n == old(output)@.len(),
            v@.len() == n,
            forall|j: int| 0 <= j < n ==> #[trigger] v@[j] == leb_values(s, n as nat, 16)[j],
            k <= n,
            forall|j: int| 0 <= j < k ==> #[trigger] output@[j] == leb_value(s, group_start(s, j as nat), 16) as i16,
        decreases n - k,
    {
        output[k] = #[verifier::truncate] (v[k] as i16);
        k = k + 1;
    }
    Ok(used)
}

/// Reads a compressed block of signed 32-bit values with its header at
/// `start` into `output`, which it fills; returns the bytes the header and
/// block take.
pub fn read_leb128_i32(data: &[u8], start: usize, output: &mut [i32]) -> (r: Result<usize, NnueError>)
    requires
        leb_header_ok(data@, start as int) ==> groups_fit(
            leb_block(data@, start as int),
            old(output)@.len(),
            5,
        ),
    ensures
        final(output)@.len() == old(output)@.len(),
        match r {
            Ok(used) => {
                &&& leb_header_ok(data@, start as int)
                &&& leb_holds(leb_block(data@, start as int), old(output)@.len())
                &&& used == 21 + le_u32(data@, start as int + 17)
                &&& forall|k: int|
                    0 <= k < old(output)@.len() ==> #[trigger] final(output)@[k] == leb_value(
                        leb_block(data@, start as int),
                        group_start(leb_block(data@, start as int), k as nat),
                        32,
                    ) as i32
            },
            Err(e) => leb_failure(data@, start as int, old(output)@.len(), e),
        },
{
    let n = output.len();
    let (v, used) = read_leb128_block(data, start, n, 32)?;
    let ghost s = leb_block(data@, start as int);
    let mut k: usize = 0;
    while k < n
        invariant
            n == output@.len(),
            n == old(output)@.len(),
            v@.len() == n,
            forall|j: int| 0 <= j < n ==> #[trigger] v@[j] == leb_values(s, n as nat, 32)[j],
            k <= n,
            forall|j: int| 0 <= j < k ==> #[trigger] output@[j] == leb_value(s, group_start(s, j as nat), 32) as i32,
        decreases n - k,
    {
        output[k] = #[verifier::truncate] (v[k] as i32);
        k = k + 1;
    }
    Ok(used)
}


/// Bytes a layer stack takes: its hash, then the biases and weights of its
/// three layers.
pub const LAYER_STACK_BYTES: usize = 35112;

/// Number of piece-square-table weights of both feature sets.
pub const ALL_PSQT: usize = 993328;

/// `l` holds the layer stack whose bytes start at `a` (after its hash).
pub open spec fn layer_stack_at(d: Seq<u8>, a: int, l: LayerStackWeights) -> bool {
    &&& l.fc0_biases@ == words_i32(d, a + 4, 32)
    &&& l.fc0_weights@ == bytes_i8(d, a + 132, 32768)
    &&& l.fc1_biases@ == words_i32(d, a + 32900, 32)
    &&& l.fc1_weights@ == bytes_i8(d, a + 33028, 2048)
    &&& l.fc2_biases@ == words_i32(d, a + 35076, 1)
    &&& l.fc2_weights@ == bytes_i8(d, a + 35080, 32)
}

/// The array holding the `N` numbers of `v`.
fn array_of<const N: usize>(v: &Vec<i32>) -> (a: [i32; N])
    requires
        v@.len() == N,
    ensures
        a@ == v@,
{
    let mut a = [0i32; N];
    let mut k: usize = 0;
    while k < N
        invariant
            v@.len() == N,
            k <= N,
            a@.len() == N,
            forall|j: int| 0 <= j < k ==> #[trigger] a@[j] == v@[j],
        decreases N - k,
    {
        a[k] = v[k];
        k = k + 1;
    }
    proof {
        assert(a@ =~= v@);
    }
    a
}

/// Reads a layer stack at `*pos` and moves past it.
fn read_layer_stack(data: &[u8], pos: &mut usize) -> (r: Result<LayerStackWeights, NnueError>)
    ensures
        match r {
            Ok(l) => fits(data@, *old(pos) as int, LAYER_STACK_BYTES as int) && l.wf()
                && layer_stack_at(data@, *old(pos) as int, l) && *final(pos) == *old(pos)
                + LAYER_STACK_BYTES,
            Err(e) => !fits(data@, *old(pos) as int, LAYER_STACK_BYTES as int) && e is UnexpectedEof,
        },
{
    let _arch_hash = read_u32(data, pos)?;
    let fc0_b = read_i32_vec(data, pos, FC0_OUTPUTS)?;
    let fc0_weights = read_i8_vec(data, pos, FC0_OUTPUTS * TRANSFORMED_DIMS)?;
    let fc1_b = read_i32_vec(data, pos, L3_BIG)?;
    let fc1_weights = read_i8_vec(data, pos, L3_BIG * FC1_INPUTS_PADDED)?;
    let fc2_b = read_i32_vec(data, pos, 1)?;
    let fc2_weights = read_i8_vec(data, pos, FC2_INPUTS)?;
    Ok(
        LayerStackWeights {
            fc0_biases: Box::new(array_of::<32>(&fc0_b)),
            fc0_weights,
            fc1_biases: Box::new(array_of::<32>(&fc1_b)),
            fc1_weights,
            fc2_biases: Box::new(array_of::<1>(&fc2_b)),
            fc2_weights,
        },
    )
}

/// Where the feature transformer starts: after the version, the hash, the
/// description's length and the description.
pub open spec fn ft_start(d: Seq<u8>) -> int {
    12 + le_u32(d, 8)
}

/// Where the threat weights of the feature transformer at `p` start: after
/// its hash and its bias block.
pub open spec fn ft_threat_start(d: Seq<u8>, p: int) -> int {
    p + 4 + 21 + le_u32(d, p + 4 + 17)
}

/// Where its piece-square weights start.
pub open spec fn ft_psq_start(d: Seq<u8>, p: int) -> int {
    ft_threat_start(d, p) + THREAT_DIMS * TRANSFORMED_DIMS
}

/// Where its block of piece-square-table weights starts.
pub open spec fn ft_psqt_start(d: Seq<u8>, p: int) -> int {
    ft_psq_start(d, p) + PSQ_DIMS * TRANSFORMED_DIMS
}

/// Where the feature transformer at `p` ends.
pub open spec fn ft_end(d: Seq<u8>, p: int) -> int {
    ft_psqt_start(d, p) + 21 + le_u32(d, ft_psqt_start(d, p) + 17)
}

/// The feature transformer at `p` can be read: its hash, its bias block
/// of 1024 values, both weight sets and its table block lie in `d`.
pub open spec fn ft_ok(d: Seq<u8>, p: int) -> bool {
    &&& fits(d, p, 4)
    &&& leb_header_ok(d, p + 4)
    &&& leb_holds(leb_block(d, p + 4), TRANSFORMED_DIMS as nat)
    &&& fits(d, ft_threat_start(d, p), THREAT_DIMS * TRANSFORMED_DIMS)
    &&& fits(d, ft_psq_start(d, p), PSQ_DIMS * TRANSFORMED_DIMS)
    &&& leb_header_ok(d, ft_psqt_start(d, p))
    &&& leb_holds(leb_block(d, ft_psqt_start(d, p)), ALL_PSQT as nat)
}

/// The groups of both compressed blocks of the feature transformer at `p`
/// fit their widths, as far as reading gets to them.
pub open spec fn ft_groups_fit(d: Seq<u8>, p: int) -> bool {
    &&& (fits(d, p, 4) && leb_header_ok(d, p + 4) ==> groups_fit(leb_block(d, p + 4), TRANSFORMED_DIMS as nat, 3))
    &&& (fits(d, p, 4) && leb_header_ok(d, p + 4) && leb_holds(leb_block(d, p + 4), TRANSFORMED_DIMS as nat)
        && fits(d, ft_threat_start(d, p), THREAT_DIMS * TRANSFORMED_DIMS) && fits(d, ft_psq_start(d, p), PSQ_DIMS * TRANSFORMED_DIMS)
        && leb_header_ok(d, ft_psqt_start(d, p)) ==> groups_fit(leb_block(d, ft_psqt_start(d, p)), ALL_PSQT as nat, 5))
}

/// `ft` holds the feature transformer whose bytes start at `p`.
pub open spec fn ft_at(d: Seq<u8>, p: int, ft: FeatureTransformerWeights) -> bool {
    let b = leb_block(d, p + 4);
    let t = leb_block(d, ft_psqt_start(d, p));
    &&& forall|k: int| 0 <= k < TRANSFORMED_DIMS ==> #[trigger] ft.biases@[k] == leb_value(b, group_start(b, k as nat), 16) as i16
    &&& ft.threat_weights@ == bytes_i8(d, ft_threat_start(d, p), (THREAT_DIMS * TRANSFORMED_DIMS) as nat)
    &&& ft.weights@ == bytes_i8(d, ft_psq_start(d, p), (PSQ_DIMS * TRANSFORMED_DIMS) as nat)
    &&& forall|k: int| 0 <= k < THREAT_DIMS * PSQT_BUCKETS ==> #[trigger] ft.threat_psqt_weights@[k] == leb_value(t, group_start(t, k as nat), 32) as i32
    &&& forall|k: int| 0 <= k < PSQ_DIMS * PSQT_BUCKETS ==> #[trigger] ft.psqt_weights@[k] == leb_value(t, group_start(t, (k + THREAT_DIMS * PSQT_BUCKETS) as nat), 32) as i32
}

/// Reads the feature transformer at `*pos` and moves past it.
#[verifier::rlimit(40)]
fn read_feature_transformer(data: &[u8], pos: &mut usize) -> (r: Result<FeatureTransformerWeights, NnueError>)
    requires
        ft_groups_fit(data@, *old(pos) as int),
    ensures
        match r {
            Ok(ft) => ft_ok(data@, *old(pos) as int) && ft.wf() && ft_at(data@, *old(pos) as int, ft)
                && *final(pos) == ft_end(data@, *old(pos) as int),
            Err(e) => !ft_ok(data@, *old(pos) as int) && !(e is InvalidVersion) && !(e is Zstd),
        },
{
    let ghost d = data@;
    let ghost p = *pos as int;
    let _ft_hash = read_u32(data, pos)?;
    let mut biases = [0i16; 1024];
    let consumed = read_leb128_i16(data, *pos, &mut biases)?;
    *pos = *pos + consumed;
    let threat_weights = read_i8_vec(data, pos, THREAT_DIMS * TRANSFORMED_DIMS)?;
    let weights = read_i8_vec(data, pos, PSQ_DIMS * TRANSFORMED_DIMS)?;
    let ghost q = *pos as int;
    let (all_psqt, used) = read_leb128_block(data, *pos, ALL_PSQT, 32)?;
    *pos = *pos + used;
    let ghost t = leb_block(d, q);
    let split = THREAT_DIMS * PSQT_BUCKETS;
    let mut threat_psqt_weights: Vec<i32> = Vec::with_capacity(split);
    let mut k: usize = 0;
    while k < split
        invariant
            split == THREAT_DIMS * PSQT_BUCKETS,
            all_psqt@.len() == ALL_PSQT,
            forall|j: int| 0 <= j < ALL_PSQT ==> #[trigger] all_psqt@[j] == leb_values(t, ALL_PSQT as nat, 32)[j],
            k <= split,
            threat_psqt_weights@.len() == k,
            forall|j: int| 0 <= j < k ==> #[trigger] threat_psqt_weights@[j] == leb_value(t, group_start(t, j as nat), 32) as i32,
        decreases split - k,
    {
        threat_psqt_weights.push(#[verifier::truncate] (all_psqt[k] as i32));
        k = k + 1;
    }
    let mut psqt_weights: Vec<i32> = Vec::with_capacity(ALL_PSQT - split);
    while k < ALL_PSQT
        invariant
            split == THREAT_DIMS * PSQT_BUCKETS,
            all_psqt@.len() == ALL_PSQT,
            forall|j: int| 0 <= j < ALL_PSQT ==> #[trigger] all_psqt@[j] == leb_values(t, ALL_PSQT as nat, 32)[j],
            split <= k <= ALL_PSQT,
            psqt_weights@.len() == k - split,
            forall|j: int| 0 <= j < k - split ==> #[trigger] psqt_weights@[j] == leb_value(t, group_start(t, (j + split) as nat), 32) as i32,
        decreases ALL_PSQT - k,
    {
        psqt_weights.push(#[verifier::truncate] (all_psqt[k] as i32));
        k = k + 1;
    }
    Ok(
        FeatureTransformerWeights {
            biases: Box::new(biases),
            weights,
            psqt_weights,
            threat_weights,
            threat_psqt_weights,
        },
    )
}


/// Where the layer stacks start.
pub open spec fn stacks_start(d: Seq<u8>) -> int {
    ft_end(d, ft_start(d))
}

/// `d` starts with the version tag that this reader knows.
pub open spec fn version_ok(d: Seq<u8>) -> bool {
    fits(d, 0, 4) && le_u32(d, 0) == VERSION
}

/// `d` holds a whole model: the version tag, the hash, the description, the
/// feature transformer and all layer stacks.
pub open spec fn model_ok(d: Seq<u8>) -> bool {
    &&& fits(d, 0, 12)
    &&& version_ok(d)
    &&& fits(d, 12, le_u32(d, 8))
    &&& ft_ok(d, ft_start(d))
    &&& fits(d, stacks_start(d), LAYER_STACKS * LAYER_STACK_BYTES)
}

/// `m` holds the model whose bytes are `d`.
pub open spec fn model_at(d: Seq<u8>, m: NnueModel) -> bool {
    &&& m.wf()
    &&& m.description@ == utf8_lossy_text(d.subrange(12, 12 + le_u32(d, 8)))
    &&& ft_at(d, ft_start(d), m.ft)
    &&& forall|j: int|
        0 <= j < LAYER_STACKS ==> #[trigger] layer_stack_at(
            d,
            stacks_start(d) + j * LAYER_STACK_BYTES,
            m.layer_stacks@[j],
        )
}

/// The compressed groups of `d` fit their widths, as far as reading gets to
/// them.
pub open spec fn model_groups_fit(d: Seq<u8>) -> bool {
    fits(d, 0, 12) && version_ok(d) && fits(d, 12, le_u32(d, 8)) ==> ft_groups_fit(d, ft_start(d))
}

impl NnueModel {
    /// Reads a model from its unpacked bytes: the version tag, a hash, the
    /// description, the feature transformer and the layer stacks.
    #[verifier::rlimit(40)]
    pub fn parse(data: &[u8]) -> (r: Result<NnueModel, NnueError>)
        requires
            model_groups_fit(data@),
        ensures
            match r {
                Ok(m) => model_ok(data@) && model_at(data@, m),
                Err(NnueError::InvalidVersion { got }) => fits(data@, 0, 4) && !version_ok(data@) && got
                    == le_u32(data@, 0),
                Err(NnueError::Zstd(_)) => false,
                Err(_) => !model_ok(data@) && !(fits(data@, 0, 4) && !version_ok(data@)),
            },
    {
        let ghost d = data@;
        let mut pos: usize = 0;
        let version = read_u32(data, &mut pos)?;
        if version != VERSION {
            return Err(NnueError::InvalidVersion { got: version });
        }
        let _hash = read_u32(data, &mut pos)?;
        let desc_size = read_u32(data, &mut pos)? as usize;
        let description = read_string(data, &mut pos, desc_size)?;
        let ft = read_feature_transformer(data, &mut pos)?;
        let ghost base = pos as int;
        let mut layer_stacks: Vec<LayerStackWeights> = Vec::with_capacity(LAYER_STACKS);
        let mut j: usize = 0;
        while j < LAYER_STACKS
            invariant
                d == data@,
                fits(d, 0, 12),
                version_ok(d),
                fits(d, 12, le_u32(d, 8)),
                ft_ok(d, ft_start(d)),
                base == stacks_start(d),
                j <= LAYER_STACKS,
                pos == base + j * LAYER_STACK_BYTES,
                fits(d, base, j * LAYER_STACK_BYTES),
                layer_stacks@.len() == j,
                forall|i: int| 0 <= i < j ==> #[trigger] layer_stacks@[i].wf(),
                forall|i: int|
                    0 <= i < j ==> #[trigger] layer_stack_at(d, base + i * LAYER_STACK_BYTES, layer_stacks@[i]),
            decreases LAYER_STACKS - j,
        {
            let l = read_layer_stack(data, &mut pos)?;
            layer_stacks.push(l);
            j = j + 1;
        }
        Ok(NnueModel { description, ft, layer_stacks })
    }
}

/// The bytes that the zstd frames in `compressed` unpack to, if they do.
pub uninterp spec fn zstd_unpacked(compressed: Seq<u8>) -> Option<Seq<u8>>;

/// Unpacks zstd frames with `zstd::stream::decode_all`. The contract claims
/// that the outcome is a function of the input bytes alone, named
/// `zstd_unpacked`; a failure is reported with the decoder's message.
#[verifier::external_body]
fn unpack_zstd(compressed: &[u8]) -> (r: Result<Vec<u8>, String>)
    ensures
        match r {
            Ok(v) => zstd_unpacked(compressed@) == Some(v@),
            Err(_) => zstd_unpacked(compressed@) is None,
        },
{
    match zstd::stream::decode_all(compressed) {
        Ok(v) => Ok(v),
        Err(e) => Err(e.to_string()),
    }
}

/// Unpacks the zstd-compressed bytes of a model file.
pub fn unpack(compressed: &[u8]) -> (r: Result<Vec<u8>, NnueError>)
    ensures
        match r {
            Ok(v) => zstd_unpacked(compressed@) == Some(v@),
            Err(e) => zstd_unpacked(compressed@) is None && e is Zstd,
        },
{
    match unpack_zstd(compressed) {
        Ok(v) => Ok(v),
        Err(msg) => Err(NnueError::Zstd(msg)),
    }
}


/// Whether each group that a reader wanting `n` values takes from `s` has
/// at most `width` bytes.
fn block_groups_fit(s: &[u8], n: usize, width: usize) -> (r: bool)
    ensures
        r == groups_fit(s@, n as nat, width as int),
{
    let ghost d = s@;
    let mut cursor: usize = 0;
    let mut k: usize = 0;
    while cursor < s.len() && k < n
        invariant
            d == s@,
            cursor == group_start(d, k as nat),
            cursor <= d.len(),
            k <= n,
            count_from(d, k as nat, n as nat) == decoded_count(d, n as nat),
            forall|j: nat| j < k ==> #[trigger] group_end(d, group_start(d, j)) <= group_start(d, j) + width,
        decreases n - k,
    {
        let mut e = cursor;
        while e < s.len() && s[e] >= 128
            invariant
                d == s@,
                cursor < d.len(),
                cursor <= e <= d.len(),
                group_end(d, cursor as int) == group_end(d, e as int),
            decreases d.len() - e,
        {
            e = e + 1;
        }
        let end = if e < s.len() {
            e + 1
        } else {
            e
        };
        proof {
            lemma_count_from_bounds(d, (k + 1) as nat, n as nat);
            lemma_group_end_bounds(d, cursor as int);
        }
        if end - cursor > width {
            return false;
        }
        cursor = end;
        k = k + 1;
    }
    true
}

/// Whether the header of a compressed block at `p` (its tag and its 32-bit
/// length) and the block lie in `data`, and the tag is right.
fn leb_header_at(data: &[u8], p: usize) -> (r: bool)
    ensures
        r == leb_header_ok(data@, p as int),
{
    let ghost d = data@;
    if p > data.len() || 21 > data.len() - p {
        return false;
    }
    let magic: [u8; 17] = [67, 79, 77, 80, 82, 69, 83, 83, 69, 68, 95, 76, 69, 66, 49, 50, 56];
    proof {
        assert(magic@ =~= leb_magic());
    }
    let mut i: usize = 0;
    while i < 17
        invariant
            fits(d, p as int, 21),
            d == data@,
            data@.len() <= usize::MAX,
            magic@ == leb_magic(),
            i <= 17,
            forall|j: int| 0 <= j < i ==> d[p + j] == leb_magic()[j],
        decreases 17 - i,
    {
        if data[p + i] != magic[i] {
            proof {
                assert(d.subrange(p as int, p + 17)[i as int] != leb_magic()[i as int]);
            }
            return false;
        }
        i = i + 1;
    }
    proof {
        assert(d.subrange(p as int, p + 17) =~= leb_magic());
    }
    let byte_count = u32_at(data, p + 17) as usize;
    byte_count <= data.len() - (p + 21)
}

/// Whether the compressed groups of `data` fit their widths, as far as
/// reading gets to them.
#[verifier::rlimit(40)]
pub fn groups_fit_for_parse(data: &[u8]) -> (r: bool)
    ensures
        r == model_groups_fit(data@),
{
    let ghost d = data@;
    if data.len() < 12 || u32_at(data, 0) != VERSION {
        return true;
    }
    let desc_size = u32_at(data, 8) as usize;
    if desc_size > data.len() - 12 {
        return true;
    }
    let p = 12 + desc_size;
    if data.len() - p < 4 || !leb_header_at(data, p + 4) {
        return true;
    }
    let bias_count = u32_at(data, p + 21) as usize;
    let bias = vstd::slice::slice_subrange(data, p + 25, p + 25 + bias_count);
    proof {
        assert(bias@ =~= leb_block(d, p + 4));
    }
    if !block_groups_fit(bias, TRANSFORMED_DIMS, 3) {
        return false;
    }
    match read_leb128_block(data, p + 4, TRANSFORMED_DIMS, 16) {
        Ok(_) => {},
        Err(_) => return true,
    }
    let q1 = p + 25 + bias_count;
    if data.len() - q1 < THREAT_DIMS * TRANSFORMED_DIMS {
        return true;
    }
    let q2 = q1 + THREAT_DIMS * TRANSFORMED_DIMS;
    if data.len() - q2 < PSQ_DIMS * TRANSFORMED_DIMS {
        return true;
    }
    let q3 = q2 + PSQ_DIMS * TRANSFORMED_DIMS;
    if !leb_header_at(data, q3) {
        return true;
    }
    let psqt_count = u32_at(data, q3 + 17) as usize;
    let psqt = vstd::slice::slice_subrange(data, q3 + 21, q3 + 21 + psqt_count);
    proof {
        assert(psqt@ =~= leb_block(d, q3 as int));
    }
    block_groups_fit(psqt, ALL_PSQT, 5)
}

impl NnueModel {
    /// Reads a model from the zstd-compressed bytes of a model file. A
    /// compressed value longer than its kind allows is reported as a read
    /// error.
    pub fn load_bytes(compressed: &[u8]) -> (r: Result<NnueModel, NnueError>)
        ensures
            match r {
                Ok(m) => zstd_unpacked(compressed@) matches Some(d) && model_ok(d) && model_at(d, m),
                Err(NnueError::Zstd(_)) => zstd_unpacked(compressed@) is None,
                Err(NnueError::InvalidVersion { got }) => zstd_unpacked(compressed@) matches Some(d)
                    && fits(d, 0, 4) && !version_ok(d) && got == le_u32(d, 0),
                Err(NnueError::Io(_)) => zstd_unpacked(compressed@) matches Some(d) && (
                !model_groups_fit(d) || !model_ok(d)),
                Err(_) => zstd_unpacked(compressed@) matches Some(d) && !model_ok(d),
            },
    {
        let data = unpack(compressed)?;
        if !groups_fit_for_parse(data.as_slice()) {
            return Err(NnueError::Io("compressed value longer than its type".to_owned()));
        }
        NnueModel::parse(data.as_slice())
    }
}

} // verus!
