//! The feature transformer: accumulators built from scratch, and updated
//! from the previous ply's by the features a move removed and added.

use vstd::prelude::*;

use super::accumulator::{Accumulator, AccumulatorState, DiffType, DirtyPiece, DirtyThreats};
use super::features::full_threats;
use super::features::full_threats::{dirty_indices, dirty_ok, threat_active};
use super::features::half_ka_v2_hm::{
    active_indices, append_active_indices, append_changed_indices, feature_bucket_spec,
    make_feature_bucket, make_index_spec,
};
use super::features::index_list::IndexList;
use super::model::NnueModel;
use super::simd::{Dispatch, add16_widening, sub16_widening};
use crate::position::Position;
use crate::types::{Color, Piece, Square};

verus! {

/// `acc` after adding (or, with `add` false, subtracting) the weight column
/// of each feature of `idxs` in turn, wrapping; a feature whose column lies
/// beyond `weights` is passed over.
pub open spec fn acc_apply(acc: Seq<i16>, weights: Seq<i8>, idxs: Seq<u32>, add: bool) -> Seq<i16>
    decreases idxs.len(),
{
    if idxs.len() == 0 {
        acc
    } else {
        let prev = acc_apply(acc, weights, idxs.drop_last(), add);
        let off = idxs.last() as int * 1024;
        if off + 1024 <= weights.len() {
            let w = weights.subrange(off, off + 1024);
            if add {
                add16_widening(prev, w)
            } else {
                sub16_widening(prev, w)
            }
        } else {
            prev
        }
    }
}

/// The piece-square-table sums `p` after adding (or subtracting) the
/// sixteen weights of each feature of `idxs` in turn; a feature whose
/// weights lie beyond `pw` is passed over.
pub open spec fn psqt_apply(p: Seq<i32>, pw: Seq<i32>, idxs: Seq<u32>, add: bool) -> Seq<i32>
    decreases idxs.len(),
{
    if idxs.len() == 0 {
        p
    } else {
        let prev = psqt_apply(p, pw, idxs.drop_last(), add);
        let off = idxs.last() as int * 16;
        if off + 16 <= pw.len() {
            Seq::new(
                16,
                |j: int|
                    if add {
                        (prev[j] + pw[off + j]) as i32
                    } else {
                        (prev[j] - pw[off + j]) as i32
                    },
            )
        } else {
            prev
        }
    }
}

/// No sum of `psqt_apply` leaves the `i32` range on the way.
pub open spec fn psqt_apply_fits(p: Seq<i32>, pw: Seq<i32>, idxs: Seq<u32>, add: bool) -> bool
    decreases idxs.len(),
{
    if idxs.len() == 0 {
        true
    } else {
        let prev = psqt_apply(p, pw, idxs.drop_last(), add);
        let off = idxs.last() as int * 16;
        &&& psqt_apply_fits(p, pw, idxs.drop_last(), add)
        &&& off + 16 <= pw.len() ==> forall|j: int|
            0 <= j < 16 ==> i32::MIN <= psqt_step(#[trigger] prev[j], pw[off + j], add) <= i32::MAX
    }
}

/// One piece-square-table sum after adding (or subtracting) a weight.
pub open spec fn psqt_step(p: i32, w: i32, add: bool) -> int {
    if add {
        p + w
    } else {
        p - w
    }
}

/// Sixteen zeros.
pub open spec fn zeros16() -> Seq<i32> {
    Seq::new(16, |j: int| 0i32)
}

/// Adds (or subtracts) the weights of each feature of `idxs` to one
/// perspective's accumulators.
fn apply_features(
    weights: &Vec<i8>,
    psqt_weights: &Vec<i32>,
    idxs: &[u32],
    acc: &mut [i16; 1024],
    psqt: &mut [i32; 16],
    add: bool,
    simd: &Dispatch,
)
    requires
        psqt_apply_fits(old(psqt)@, psqt_weights@, idxs@, add),
    ensures
        final(acc)@ == acc_apply(old(acc)@, weights@, idxs@, add),
        final(psqt)@ == psqt_apply(old(psqt)@, psqt_weights@, idxs@, add),
{
    let ghost acc0 = acc@;
    let ghost psqt0 = psqt@;
    let mut k: usize = 0;
    proof {
        assert(idxs@.subrange(0, 0) =~= Seq::<u32>::empty());
    }
    while k < idxs.len()
        invariant
            k <= idxs@.len(),
            psqt_apply_fits(psqt0, psqt_weights@, idxs@, add),
            acc@ == acc_apply(acc0, weights@, idxs@.subrange(0, k as int), add),
            psqt@ == psqt_apply(psqt0, psqt_weights@, idxs@.subrange(0, k as int), add),
        decreases idxs@.len() - k,
    {
        let ghost pre = idxs@.subrange(0, k as int + 1);
        proof {
            assert(pre.drop_last() =~= idxs@.subrange(0, k as int));
            assert(pre.last() == idxs@[k as int]);
            lemma_fits_prefix(psqt0, psqt_weights@, idxs@, add, k as int + 1);
        }
        let idx = idxs[k] as u64;
        let offset = idx * 1024;
        if offset + 1024 <= weights.len() as u64 {
            let off = offset as usize;
            let w = vstd::slice::slice_subrange(weights.as_slice(), off, off + 1024);
            if add {
                simd.vec_add_i16_widening(acc, w);
            } else {
                simd.vec_sub_i16_widening(acc, w);
            }
        }
        let psqt_offset = idx * 16;
        if psqt_offset + 16 <= psqt_weights.len() as u64 {
            let po = psqt_offset as usize;
            let ghost before = psqt@;
            let mut j: usize = 0;
            while j < 16
                invariant
                    j <= 16,
                    po + 16 <= psqt_weights@.len(),
                    po == idxs@[k as int] as int * 16,
                    before == psqt_apply(psqt0, psqt_weights@, idxs@.subrange(0, k as int), add),
                    psqt_apply_fits(psqt0, psqt_weights@, pre, add),
                    pre.drop_last() =~= idxs@.subrange(0, k as int),
                    pre.last() == idxs@[k as int],
                    pre.len() > 0,
                    forall|t: int| 0 <= t < j ==> #[trigger] psqt@[t] == (if add {
                        (before[t] + psqt_weights@[po + t]) as i32
                    } else {
                        (before[t] - psqt_weights@[po + t]) as i32
                    }),
                    forall|t: int| j <= t < 16 ==> #[trigger] psqt@[t] == before[t],
                decreases 16 - j,
            {
                proof {
                    assert(i32::MIN <= psqt_step(before[j as int], psqt_weights@[po + j], add) <= i32::MAX);
                }
                if add {
                    psqt[j] = psqt[j] + psqt_weights[po + j];
                } else {
                    psqt[j] = psqt[j] - psqt_weights[po + j];
                }
                j = j + 1;
            }
            proof {
                assert(psqt@ =~= psqt_apply(psqt0, psqt_weights@, pre, add));
            }
        }
        k = k + 1;
    }
    proof {
        assert(idxs@.subrange(0, idxs@.len() as int) =~= idxs@);
    }
}

/// `psqt_apply_fits` holds of every prefix of a list it holds of.
proof fn lemma_fits_prefix(p: Seq<i32>, pw: Seq<i32>, idxs: Seq<u32>, add: bool, n: int)
    requires
        psqt_apply_fits(p, pw, idxs, add),
        0 <= n <= idxs.len(),
    ensures
        psqt_apply_fits(p, pw, idxs.subrange(0, n), add),
    decreases idxs.len() - n,
{
    if n < idxs.len() {
        lemma_fits_prefix(p, pw, idxs, add, n + 1);
        let pre = idxs.subrange(0, n + 1);
        assert(pre.drop_last() =~= idxs.subrange(0, n));
    } else {
        assert(idxs.subrange(0, n) =~= idxs);
    }
}

/// The piece-square features active for perspective `c`: every piece on
/// the board, in square order, in `c`'s feature bucket.
pub open spec fn psq_active(pos: &Position, c: Color) -> Seq<u32> {
    active_indices(pos, c, feature_bucket_spec(c, pos).0 as int, feature_bucket_spec(c, pos).1, 90)
}

/// Rebuilds perspective `perspective`'s piece-square accumulators: the
/// biases plus the weights of every active feature.
fn refresh_psq_one(
    model: &NnueModel,
    pos: &Position,
    perspective: Color,
    acc: &mut Accumulator,
    simd: &Dispatch,
)
    requires
        pos.valid(),
        pos.occ()@.len() <= 64,
        psqt_apply_fits(zeros16(), model.ft.psqt_weights@, psq_active(pos, perspective), true),
    ensures
        final(acc).accumulation[perspective.id()]@ == acc_apply(
            model.ft.biases@,
            model.ft.weights@,
            psq_active(pos, perspective),
            true,
        ),
        final(acc).psqt_accumulation[perspective.id()]@ == psqt_apply(
            zeros16(),
            model.ft.psqt_weights@,
            psq_active(pos, perspective),
            true,
        ),
        final(acc).computed[perspective.id()],
        final(acc).accumulation[perspective.opp().id()] == old(acc).accumulation[perspective.opp().id()],
        final(acc).psqt_accumulation[perspective.opp().id()] == old(acc).psqt_accumulation[perspective.opp().id()],
        final(acc).computed[perspective.opp().id()] == old(acc).computed[perspective.opp().id()],
{
    let mut active = IndexList::new();
    append_active_indices(pos, perspective, &mut active);
    proof {
        assert(active@ =~= psq_active(pos, perspective));
    }
    let c = perspective.index();
    let mut row: [i16; 1024] = *model.ft.biases;
    let mut psqt: [i32; 16] = [0i32; 16];
    proof {
        assert(psqt@ =~= zeros16());
    }
    apply_features(&model.ft.weights, &model.ft.psqt_weights, active.as_slice(), &mut row, &mut psqt, true, simd);
    acc.accumulation[c] = row;
    acc.psqt_accumulation[c] = psqt;
    acc.computed[c] = true;
}

/// Rebuilds both perspectives' piece-square accumulators (see
/// `refresh_psq_one`).
pub fn refresh_psq_accumulator(model: &NnueModel, pos: &Position, acc: &mut Accumulator, simd: &Dispatch)
    requires
        pos.valid(),
        pos.occ()@.len() <= 64,
        forall|c: Color| psqt_apply_fits(zeros16(), model.ft.psqt_weights@, #[trigger] psq_active(pos, c), true),
    ensures
        forall|c: Color| #[trigger] final(acc).accumulation[c.id()]@ == acc_apply(
            model.ft.biases@,
            model.ft.weights@,
            psq_active(pos, c),
            true,
        ),
        forall|c: Color| #[trigger] final(acc).psqt_accumulation[c.id()]@ == psqt_apply(
            zeros16(),
            model.ft.psqt_weights@,
            psq_active(pos, c),
            true,
        ),
        final(acc).computed@ == seq![true, true],
{
    proof {
        assert(psqt_apply_fits(zeros16(), model.ft.psqt_weights@, psq_active(pos, Color::White), true));
        assert(psqt_apply_fits(zeros16(), model.ft.psqt_weights@, psq_active(pos, Color::Black), true));
    }
    refresh_psq_one(model, pos, Color::White, acc, simd);
    refresh_psq_one(model, pos, Color::Black, acc, simd);
    proof {
        assert(acc.computed@ =~= seq![true, true]);
        assert forall|c: Color| #[trigger] acc.accumulation[c.id()]@ == acc_apply(
            model.ft.biases@,
            model.ft.weights@,
            psq_active(pos, c),
            true,
        ) by {
            if c == Color::White {
            } else {
            }
        }
        assert forall|c: Color| #[trigger] acc.psqt_accumulation[c.id()]@ == psqt_apply(
            zeros16(),
            model.ft.psqt_weights@,
            psq_active(pos, c),
            true,
        ) by {
            if c == Color::White {
            } else {
            }
        }
    }
}

/// The square of the piece a move captured, or `NONE`.
pub open spec fn captured_sq(d: DirtyPiece) -> Square {
    if d.dirty_num > 1 {
        d.from[1]
    } else {
        Square::NONE
    }
}

/// The piece a move captured, or `NONE`.
pub open spec fn captured_pc(d: DirtyPiece) -> Piece {
    if d.dirty_num > 1 {
        d.pc[1]
    } else {
        Piece::NONE
    }
}

/// The piece-square features a move removes for perspective `c`: the moved
/// piece on its origin, then the captured piece.
pub open spec fn psq_removed(pos: &Position, c: Color, d: DirtyPiece) -> Seq<u32> {
    let (b, m, _) = feature_bucket_spec(c, pos);
    seq![make_index_spec(c, d.from[0].id(), d.pc[0], b as int, m) as u32] + if captured_sq(d)
        != Square::NONE {
        seq![make_index_spec(c, captured_sq(d).id(), captured_pc(d), b as int, m) as u32]
    } else {
        Seq::empty()
    }
}

/// The piece-square features a move adds for perspective `c`: the moved
/// piece on its destination, if it has one.
pub open spec fn psq_added(pos: &Position, c: Color, d: DirtyPiece) -> Seq<u32> {
    let (b, m, _) = feature_bucket_spec(c, pos);
    if d.to[0] != Square::NONE {
        seq![make_index_spec(c, d.to[0].id(), d.pc[0], b as int, m) as u32]
    } else {
        Seq::empty()
    }
}

/// Perspective `c` of `prev` cannot be updated and must be rebuilt.
pub open spec fn psq_needs_refresh(prev: Accumulator, d: DirtyPiece, c: Color) -> bool {
    d.requires_refresh[c.id()] || !prev.computed[c.id()]
}

/// What `update_psq_one` needs of perspective `c`.
pub open spec fn psq_update_ok(model: &NnueModel, pos: &Position, prev: Accumulator, d: DirtyPiece, c: Color) -> bool {
    let pw = model.ft.psqt_weights@;
    if psq_needs_refresh(prev, d, c) {
        psqt_apply_fits(zeros16(), pw, psq_active(pos, c), true)
    } else {
        &&& d.changes_ok()
        &&& psqt_apply_fits(prev.psqt_accumulation[c.id()]@, pw, psq_removed(pos, c, d), false)
        &&& psqt_apply_fits(
            psqt_apply(prev.psqt_accumulation[c.id()]@, pw, psq_removed(pos, c, d), false),
            pw,
            psq_added(pos, c, d),
            true,
        )
    }
}

/// The piece-square accumulator of perspective `c` after the update.
pub open spec fn psq_updated_acc(model: &NnueModel, pos: &Position, prev: Accumulator, d: DirtyPiece, c: Color) -> Seq<i16> {
    let w = model.ft.weights@;
    if psq_needs_refresh(prev, d, c) {
        acc_apply(model.ft.biases@, w, psq_active(pos, c), true)
    } else {
        acc_apply(
            acc_apply(prev.accumulation[c.id()]@, w, psq_removed(pos, c, d), false),
            w,
            psq_added(pos, c, d),
            true,
        )
    }
}

/// The piece-square-table sums of perspective `c` after the update.
pub open spec fn psq_updated_psqt(model: &NnueModel, pos: &Position, prev: Accumulator, d: DirtyPiece, c: Color) -> Seq<i32> {
    let pw = model.ft.psqt_weights@;
    if psq_needs_refresh(prev, d, c) {
        psqt_apply(zeros16(), pw, psq_active(pos, c), true)
    } else {
        psqt_apply(
            psqt_apply(prev.psqt_accumulation[c.id()]@, pw, psq_removed(pos, c, d), false),
            pw,
            psq_added(pos, c, d),
            true,
        )
    }
}

fn update_psq_one(
    model: &NnueModel,
    pos: &Position,
    perspective: Color,
    prev: &Accumulator,
    acc: &mut Accumulator,
    dirty: &DirtyPiece,
    simd: &Dispatch,
)
    requires
        pos.valid(),
        pos.occ()@.len() <= 64,
        psq_update_ok(model, pos, *prev, *dirty, perspective),
    ensures
        final(acc).accumulation[perspective.id()]@ == psq_updated_acc(model, pos, *prev, *dirty, perspective),
        final(acc).psqt_accumulation[perspective.id()]@ == psq_updated_psqt(model, pos, *prev, *dirty, perspective),
        final(acc).computed[perspective.id()],
        final(acc).accumulation[perspective.opp().id()] == old(acc).accumulation[perspective.opp().id()],
        final(acc).psqt_accumulation[perspective.opp().id()] == old(acc).psqt_accumulation[perspective.opp().id()],
        final(acc).computed[perspective.opp().id()] == old(acc).computed[perspective.opp().id()],
{
    let c = perspective.index();
    if dirty.requires_refresh[c] || !prev.computed[c] {
        refresh_psq_one(model, pos, perspective, acc, simd);
        return ;
    }
    let mut row: [i16; 1024] = prev.accumulation[c];
    let mut psqt: [i32; 16] = prev.psqt_accumulation[c];
    let (bucket, mirror, _) = make_feature_bucket(perspective, pos);
    let mut removed = IndexList::new();
    let mut added = IndexList::new();
    let captured_sq = if dirty.dirty_num > 1 {
        dirty.from[1]
    } else {
        Square::NONE
    };
    let captured_pc = if dirty.dirty_num > 1 {
        dirty.pc[1]
    } else {
        Piece::NONE
    };
    append_changed_indices(
        perspective,
        bucket,
        mirror,
        dirty.from[0],
        dirty.to[0],
        dirty.pc[0],
        captured_sq,
        captured_pc,
        &mut removed,
        &mut added,
    );
    proof {
        assert(removed@ =~= psq_removed(pos, perspective, *dirty));
        assert(added@ =~= psq_added(pos, perspective, *dirty));
    }
    apply_features(&model.ft.weights, &model.ft.psqt_weights, removed.as_slice(), &mut row, &mut psqt, false, simd);
    apply_features(&model.ft.weights, &model.ft.psqt_weights, added.as_slice(), &mut row, &mut psqt, true, simd);
    acc.accumulation[c] = row;
    acc.psqt_accumulation[c] = psqt;
    acc.computed[c] = true;
}

/// Brings both perspectives' piece-square accumulators up to date after a
/// move: a perspective that needs it, or whose previous accumulators were
/// not computed, is rebuilt; otherwise `prev` loses the features the move
/// removed and gains those it added.
pub fn update_psq_accumulator_incremental(
    model: &NnueModel,
    pos: &Position,
    prev: &Accumulator,
    acc: &mut Accumulator,
    dirty: &DirtyPiece,
    simd: &Dispatch,
)
    requires
        pos.valid(),
        pos.occ()@.len() <= 64,
        forall|c: Color| #[trigger] psq_update_ok(model, pos, *prev, *dirty, c),
    ensures
        forall|c: Color| #[trigger] final(acc).accumulation[c.id()]@ == psq_updated_acc(model, pos, *prev, *dirty, c),
        forall|c: Color| #[trigger] final(acc).psqt_accumulation[c.id()]@ == psq_updated_psqt(model, pos, *prev, *dirty, c),
        final(acc).computed@ == seq![true, true],
{
    proof {
        assert(psq_update_ok(model, pos, *prev, *dirty, Color::White));
        assert(psq_update_ok(model, pos, *prev, *dirty, Color::Black));
    }
    update_psq_one(model, pos, Color::White, prev, acc, dirty, simd);
    update_psq_one(model, pos, Color::Black, prev, acc, dirty, simd);
    proof {
        assert(acc.computed@ =~= seq![true, true]);
        assert forall|c: Color| #[trigger] acc.accumulation[c.id()]@ == psq_updated_acc(model, pos, *prev, *dirty, c) by {
            if c == Color::White {
            } else {
            }
        }
        assert forall|c: Color| #[trigger] acc.psqt_accumulation[c.id()]@ == psq_updated_psqt(model, pos, *prev, *dirty, c) by {
            if c == Color::White {
            } else {
            }
        }
    }
}

/// A thousand and twenty-four zeros.
pub open spec fn zeros1024() -> Seq<i16> {
    Seq::new(1024, |j: int| 0i16)
}

/// The threat features active for perspective `c`.
pub open spec fn threat_list(pos: &Position, c: Color) -> Seq<u32> {
    threat_active(pos, c, feature_bucket_spec(c, pos).1, 90)
}

/// What rebuilding perspective `c`'s threat accumulators needs.
pub open spec fn threat_refresh_ok(model: &NnueModel, pos: &Position, c: Color) -> bool {
    &&& threat_list(pos, c).len() <= 64
    &&& psqt_apply_fits(zeros16(), model.ft.threat_psqt_weights@, threat_list(pos, c), true)
}

/// Rebuilds perspective `perspective`'s threat accumulators: the weights of
/// every active threat feature, from zero.
fn refresh_threat_accumulator_one(
    model: &NnueModel,
    pos: &Position,
    perspective: Color,
    acc: &mut Accumulator,
    simd: &Dispatch,
)
    requires
        pos.valid(),
        threat_refresh_ok(model, pos, perspective),
    ensures
        final(acc).accumulation[perspective.id()]@ == acc_apply(
            zeros1024(),
            model.ft.threat_weights@,
            threat_list(pos, perspective),
            true,
        ),
        final(acc).psqt_accumulation[perspective.id()]@ == psqt_apply(
            zeros16(),
            model.ft.threat_psqt_weights@,
            threat_list(pos, perspective),
            true,
        ),
        final(acc).computed[perspective.id()],
        final(acc).accumulation[perspective.opp().id()] == old(acc).accumulation[perspective.opp().id()],
        final(acc).psqt_accumulation[perspective.opp().id()] == old(acc).psqt_accumulation[perspective.opp().id()],
        final(acc).computed[perspective.opp().id()] == old(acc).computed[perspective.opp().id()],
{
    let c = perspective.index();
    let mut active = IndexList::new();
    full_threats::append_active_indices(pos, perspective, &mut active);
    proof {
        assert(active@ =~= threat_list(pos, perspective));
    }
    let mut row = [0i16; 1024];
    let mut psqt = [0i32; 16];
    proof {
        assert(row@ =~= zeros1024());
        assert(psqt@ =~= zeros16());
    }
    apply_features(&model.ft.threat_weights, &model.ft.threat_psqt_weights, active.as_slice(), &mut row, &mut psqt, true, simd);
    acc.accumulation[c] = row;
    acc.psqt_accumulation[c] = psqt;
    acc.computed[c] = true;
}

/// Rebuilds both perspectives' threat accumulators (see
/// `refresh_threat_accumulator_one`).
pub fn refresh_threat_accumulator(model: &NnueModel, pos: &Position, acc: &mut Accumulator, simd: &Dispatch)
    requires
        pos.valid(),
        forall|c: Color| #[trigger] threat_refresh_ok(model, pos, c),
    ensures
        forall|c: Color| #[trigger] final(acc).accumulation[c.id()]@ == acc_apply(
            zeros1024(),
            model.ft.threat_weights@,
            threat_list(pos, c),
            true,
        ),
        forall|c: Color| #[trigger] final(acc).psqt_accumulation[c.id()]@ == psqt_apply(
            zeros16(),
            model.ft.threat_psqt_weights@,
            threat_list(pos, c),
            true,
        ),
        final(acc).computed@ == seq![true, true],
{
    proof {
        assert(threat_refresh_ok(model, pos, Color::White));
        assert(threat_refresh_ok(model, pos, Color::Black));
    }
    refresh_threat_accumulator_one(model, pos, Color::White, acc, simd);
    refresh_threat_accumulator_one(model, pos, Color::Black, acc, simd);
    proof {
        assert(acc.computed@ =~= seq![true, true]);
        assert forall|c: Color| #[trigger] acc.accumulation[c.id()]@ == acc_apply(
            zeros1024(),
            model.ft.threat_weights@,
            threat_list(pos, c),
            true,
        ) by {
            if c == Color::White {
            } else {
            }
        }
        assert forall|c: Color| #[trigger] acc.psqt_accumulation[c.id()]@ == psqt_apply(
            zeros16(),
            model.ft.threat_psqt_weights@,
            threat_list(pos, c),
            true,
        ) by {
            if c == Color::White {
            } else {
            }
        }
    }
}

/// The sum of entry `j` of the weight rows (1024 wide) of the features of
/// `idxs` that lie within `weights`.
pub open spec fn feature_sum(weights: Seq<i8>, idxs: Seq<u32>, j: int) -> int
    decreases idxs.len(),
{
    if idxs.len() == 0 {
        0
    } else {
        let off = idxs.last() as int * 1024;
        feature_sum(weights, idxs.drop_last(), j) + if off + 1024 <= weights.len() {
            weights[off + j] as int
        } else {
            0
        }
    }
}

/// The sum of entry `j` of the table rows (16 wide) of the features of
/// `idxs` that lie within `pw`.
pub open spec fn psqt_sum(pw: Seq<i32>, idxs: Seq<u32>, j: int) -> int
    decreases idxs.len(),
{
    if idxs.len() == 0 {
        0
    } else {
        let off = idxs.last() as int * 16;
        psqt_sum(pw, idxs.drop_last(), j) + if off + 16 <= pw.len() {
            pw[off + j] as int
        } else {
            0
        }
    }
}

/// Applying features to an accumulator adds (or subtracts) their weight
/// sums, modulo 2^16.
pub proof fn lemma_acc_apply_sum(acc: Seq<i16>, weights: Seq<i8>, idxs: Seq<u32>, add: bool, j: int)
    requires
        acc.len() == 1024,
        0 <= j < 1024,
    ensures
        acc_apply(acc, weights, idxs, add).len() == 1024,
        (acc_apply(acc, weights, idxs, add)[j] - acc[j] - (if add {
            feature_sum(weights, idxs, j)
        } else {
            -feature_sum(weights, idxs, j)
        })) % 65536 == 0,
    decreases idxs.len(),
{
    if idxs.len() > 0 {
        lemma_acc_apply_sum(acc, weights, idxs.drop_last(), add, j);
        let prev = acc_apply(acc, weights, idxs.drop_last(), add);
        let off = idxs.last() as int * 1024;
        if off + 1024 <= weights.len() {
            let w = weights.subrange(off, off + 1024);
            let x = prev[j];
            let y = w[j] as i16;
            assert(w[j] == weights[off + j]);
            let a = acc_apply(acc, weights, idxs, add)[j] - x - (if add { y as int } else { -(y as int) });
            assert(a == 0 || a == 65536 || a == -65536);
            let b = x - acc[j] - (if add {
                feature_sum(weights, idxs.drop_last(), j)
            } else {
                -feature_sum(weights, idxs.drop_last(), j)
            });
            assert(b % 65536 == 0);
            assert((a + b) % 65536 == 0) by (nonlinear_arith)
                requires
                    a == 0 || a == 65536 || a == -65536,
                    b % 65536 == 0,
            ;
        }
    }
}

/// Applying features to table sums, without leaving the `i32` range,
/// adds (or subtracts) their table sums.
pub proof fn lemma_psqt_apply_sum(p: Seq<i32>, pw: Seq<i32>, idxs: Seq<u32>, add: bool, j: int)
    requires
        p.len() == 16,
        0 <= j < 16,
        psqt_apply_fits(p, pw, idxs, add),
    ensures
        psqt_apply(p, pw, idxs, add).len() == 16,
        psqt_apply(p, pw, idxs, add)[j] == p[j] + (if add {
            psqt_sum(pw, idxs, j)
        } else {
            -psqt_sum(pw, idxs, j)
        }),
    decreases idxs.len(),
{
    if idxs.len() > 0 {
        lemma_psqt_apply_sum(p, pw, idxs.drop_last(), add, j);
        let prev = psqt_apply(p, pw, idxs.drop_last(), add);
        let off = idxs.last() as int * 16;
        if off + 16 <= pw.len() {
            assert(i32::MIN <= psqt_step(prev[j], pw[off + j], add) <= i32::MAX);
        }
    }
}

/// Applying a threat diff forward and then backward gives back the
/// accumulator row and the table sums it started from (the table sums
/// staying within range on the way).
pub proof fn lemma_threat_diff_round_trip(
    model: &NnueModel,
    c: Color,
    mirror: bool,
    row: Seq<i16>,
    p: Seq<i32>,
    d: DirtyThreats,
)
    requires
        row.len() == 1024,
        p.len() == 16,
        row_diff_ok(model, c, mirror, p, d, true),
        row_diff_ok(model, c, mirror, row_diff_psqt(model, c, mirror, p, d, true), d, false),
    ensures
        row_diff_acc(model, c, mirror, row_diff_acc(model, c, mirror, row, d, true), d, false) == row,
        row_diff_psqt(model, c, mirror, row_diff_psqt(model, c, mirror, p, d, true), d, false) == p,
{
    let w = model.ft.threat_weights@;
    let pw = model.ft.threat_psqt_weights@;
    let rem = diff_out(c, mirror, d, true);
    let add = diff_in(c, mirror, d, true);
    assert(diff_out(c, mirror, d, false) == add);
    assert(diff_in(c, mirror, d, false) == rem);
    let r1 = acc_apply(row, w, rem, false);
    let r2 = acc_apply(r1, w, add, true);
    let r3 = acc_apply(r2, w, add, false);
    let r4 = acc_apply(r3, w, rem, true);
    assert forall|j: int| 0 <= j < 1024 implies #[trigger] r4[j] == row[j] by {
        lemma_acc_apply_sum(row, w, rem, false, j);
        lemma_acc_apply_sum(r1, w, add, true, j);
        lemma_acc_apply_sum(r2, w, add, false, j);
        lemma_acc_apply_sum(r3, w, rem, true, j);
        let sr = feature_sum(w, rem, j);
        let sa = feature_sum(w, add, j);
        let e1 = r1[j] - row[j] + sr;
        let e2 = r2[j] - r1[j] - sa;
        let e3 = r3[j] - r2[j] + sa;
        let e4 = r4[j] - r3[j] - sr;
        assert((e1 + e2 + e3 + e4) % 65536 == 0) by (nonlinear_arith)
            requires
                e1 % 65536 == 0,
                e2 % 65536 == 0,
                e3 % 65536 == 0,
                e4 % 65536 == 0,
        ;
        assert(e1 + e2 + e3 + e4 == r4[j] - row[j]);
        let diff = r4[j] - row[j];
        assert(diff == 0) by (nonlinear_arith)
            requires
                diff % 65536 == 0,
                -65536 < diff < 65536,
        ;
    }
    lemma_acc_apply_sum(row, w, rem, false, 0);
    lemma_acc_apply_sum(r1, w, add, true, 0);
    lemma_acc_apply_sum(r2, w, add, false, 0);
    lemma_acc_apply_sum(r3, w, rem, true, 0);
    assert(r4 =~= row);
    let q1 = psqt_apply(p, pw, rem, false);
    let q2 = psqt_apply(q1, pw, add, true);
    let q3 = psqt_apply(q2, pw, add, false);
    let q4 = psqt_apply(q3, pw, rem, true);
    assert forall|j: int| 0 <= j < 16 implies #[trigger] q4[j] == p[j] by {
        lemma_psqt_apply_sum(p, pw, rem, false, j);
        lemma_psqt_apply_sum(q1, pw, add, true, j);
        lemma_psqt_apply_sum(q2, pw, add, false, j);
        lemma_psqt_apply_sum(q3, pw, rem, true, j);
    }
    lemma_psqt_apply_sum(p, pw, rem, false, 0);
    lemma_psqt_apply_sum(q1, pw, add, true, 0);
    lemma_psqt_apply_sum(q2, pw, add, false, 0);
    lemma_psqt_apply_sum(q3, pw, rem, true, 0);
    assert(q4 =~= p);
}

/// The total of `val` over the features of the pieces on the first `n`
/// squares of `board`, for perspective `c` in bucket `b` with mirroring `m`.
pub open spec fn board_total(board: Seq<Piece>, c: Color, b: int, m: bool, val: spec_fn(u32) -> int, n: int) -> int
    decreases n,
{
    if n <= 0 {
        0
    } else {
        board_total(board, c, b, m, val, n - 1) + square_value(board, c, b, m, val, n - 1)
    }
}

/// What the piece on square `s` of `board` adds to `board_total`.
pub open spec fn square_value(board: Seq<Piece>, c: Color, b: int, m: bool, val: spec_fn(u32) -> int, s: int) -> int {
    if board[s] != Piece::NONE {
        val(make_index_spec(c, s, board[s], b, m) as u32)
    } else {
        0
    }
}

/// Entry `j` of the weight row (1024 wide) of feature `x`, or 0 when it
/// lies beyond `weights`.
pub open spec fn weight_entry(weights: Seq<i8>, j: int) -> spec_fn(u32) -> int {
    |x: u32| if x as int * 1024 + 1024 <= weights.len() { weights[x as int * 1024 + j] as int } else { 0 }
}

/// Entry `j` of the table row (16 wide) of feature `x`, or 0 when it lies
/// beyond `pw`.
pub open spec fn psqt_entry(pw: Seq<i32>, j: int) -> spec_fn(u32) -> int {
    |x: u32| if x as int * 16 + 16 <= pw.len() { pw[x as int * 16 + j] as int } else { 0 }
}

proof fn lemma_active_feature_sum(pos: &Position, c: Color, b: int, m: bool, weights: Seq<i8>, j: int, n: int)
    ensures
        feature_sum(weights, active_indices(pos, c, b, m, n), j) == board_total(pos.board@, c, b, m, weight_entry(weights, j), n),
    decreases n,
{
    if n > 0 {
        lemma_active_feature_sum(pos, c, b, m, weights, j, n - 1);
        let prev = active_indices(pos, c, b, m, n - 1);
        if pos.board[n - 1] != Piece::NONE {
            let x = make_index_spec(c, n - 1, pos.board[n - 1], b, m) as u32;
            assert(prev.push(x).drop_last() =~= prev);
        }
    }
}

proof fn lemma_active_psqt_sum(pos: &Position, c: Color, b: int, m: bool, pw: Seq<i32>, j: int, n: int)
    ensures
        psqt_sum(pw, active_indices(pos, c, b, m, n), j) == board_total(pos.board@, c, b, m, psqt_entry(pw, j), n),
    decreases n,
{
    if n > 0 {
        lemma_active_psqt_sum(pos, c, b, m, pw, j, n - 1);
        let prev = active_indices(pos, c, b, m, n - 1);
        if pos.board[n - 1] != Piece::NONE {
            let x = make_index_spec(c, n - 1, pos.board[n - 1], b, m) as u32;
            assert(prev.push(x).drop_last() =~= prev);
        }
    }
}

/// Boards that differ on two squares at most differ in their totals by
/// what those squares hold.
proof fn lemma_board_total_two(b1: Seq<Piece>, b2: Seq<Piece>, c: Color, b: int, m: bool, val: spec_fn(u32) -> int, s1: int, s2: int, n: int)
    requires
        s1 != s2,
        forall|s: int| 0 <= s < n && s != s1 && s != s2 ==> #[trigger] b1[s] == b2[s],
    ensures
        board_total(b2, c, b, m, val, n) == board_total(b1, c, b, m, val, n)
            + (if 0 <= s1 < n { square_value(b2, c, b, m, val, s1) - square_value(b1, c, b, m, val, s1) } else { 0 })
            + (if 0 <= s2 < n { square_value(b2, c, b, m, val, s2) - square_value(b1, c, b, m, val, s2) } else { 0 }),
    decreases n,
{
    if n > 0 {
        lemma_board_total_two(b1, b2, c, b, m, val, s1, s2, n - 1);
        if n - 1 != s1 && n - 1 != s2 {
            assert(b1[n - 1] == b2[n - 1]);
        }
    }
}

/// `d` records the move of the piece on `from` of `p` to `to`: the moved
/// piece, its squares, and the piece it took on `to`, if any.
pub open spec fn records_move(d: DirtyPiece, p: &Position, from: int, to: int) -> bool {
    &&& 0 <= from < 90
    &&& 0 <= to < 90
    &&& from != to
    &&& p.board[from] != Piece::NONE
    &&& d.from[0].id() == from
    &&& d.to[0].id() == to
    &&& d.pc[0] == p.board[from]
    &&& if p.board[to] != Piece::NONE {
        captured_sq(d).id() == to && captured_pc(d) == p.board[to]
    } else {
        captured_sq(d) == Square::NONE
    }
}

/// After a move that keeps perspective `c`'s feature bucket, updating the
/// piece-square accumulators of the position before it (as a refresh left
/// them) by the move's removed and added features gives what a refresh of
/// the position after it gives.
pub proof fn lemma_psq_update_matches_refresh(
    model: &NnueModel,
    old: &Position,
    new: &Position,
    prev: Accumulator,
    d: DirtyPiece,
    c: Color,
    from: int,
    to: int,
)
    requires
        records_move(d, old, from, to),
        new.board@ == crate::position::do_move::board_after_move(old.board@, from, to),
        feature_bucket_spec(c, new).0 == feature_bucket_spec(c, old).0,
        feature_bucket_spec(c, new).1 == feature_bucket_spec(c, old).1,
        !psq_needs_refresh(prev, d, c),
        model.ft.biases@.len() == 1024,
        prev.accumulation[c.id()]@ == acc_apply(model.ft.biases@, model.ft.weights@, psq_active(old, c), true),
        prev.psqt_accumulation[c.id()]@ == psqt_apply(zeros16(), model.ft.psqt_weights@, psq_active(old, c), true),
        psqt_apply_fits(zeros16(), model.ft.psqt_weights@, psq_active(old, c), true),
        psqt_apply_fits(zeros16(), model.ft.psqt_weights@, psq_active(new, c), true),
        psq_update_ok(model, new, prev, d, c),
    ensures
        psq_updated_acc(model, new, prev, d, c) == acc_apply(model.ft.biases@, model.ft.weights@, psq_active(new, c), true),
        psq_updated_psqt(model, new, prev, d, c) == psqt_apply(zeros16(), model.ft.psqt_weights@, psq_active(new, c), true),
{
    let w = model.ft.weights@;
    let pw = model.ft.psqt_weights@;
    let bias = model.ft.biases@;
    let bk = feature_bucket_spec(c, new).0 as int;
    let mr = feature_bucket_spec(c, new).1;
    let act_old = psq_active(old, c);
    let act_new = psq_active(new, c);
    let rem = psq_removed(new, c, d);
    let add = psq_added(new, c, d);
    let pc = old.board[from];
    let cap = old.board[to];
    assert(new.board[from] == Piece::NONE);
    assert(new.board[to] == pc);
    assert forall|s: int| 0 <= s < 90 && s != from && s != to implies #[trigger] old.board@[s] == new.board@[s] by {}
    let r0 = prev.accumulation[c.id()]@;
    let r1 = acc_apply(r0, w, rem, false);
    let r2 = acc_apply(r1, w, add, true);
    let fresh = acc_apply(bias, w, act_new, true);
    lemma_acc_apply_sum(bias, w, act_old, true, 0);
    lemma_acc_apply_sum(r0, w, rem, false, 0);
    lemma_acc_apply_sum(r1, w, add, true, 0);
    lemma_acc_apply_sum(bias, w, act_new, true, 0);
    assert forall|j: int| 0 <= j < 1024 implies #[trigger] r2[j] == fresh[j] by {
        lemma_acc_apply_sum(bias, w, act_old, true, j);
        lemma_acc_apply_sum(r0, w, rem, false, j);
        lemma_acc_apply_sum(r1, w, add, true, j);
        lemma_acc_apply_sum(bias, w, act_new, true, j);
        let val = weight_entry(w, j);
        lemma_active_feature_sum(old, c, bk, mr, w, j, 90);
        lemma_active_feature_sum(new, c, bk, mr, w, j, 90);
        lemma_board_total_two(old.board@, new.board@, c, bk, mr, val, from, to, 90);
        let s_rem = feature_sum(w, rem, j);
        let s_add = feature_sum(w, add, j);
        assert(s_rem == val(make_index_spec(c, from, pc, bk, mr) as u32) + if cap != Piece::NONE {
            val(make_index_spec(c, to, cap, bk, mr) as u32)
        } else {
            0
        }) by {
            let first = seq![make_index_spec(c, d.from[0].id(), d.pc[0], bk, mr) as u32];
            assert(first.drop_last() =~= Seq::<u32>::empty());
            assert(feature_sum(w, Seq::<u32>::empty(), j) == 0);
            assert(feature_sum(w, first, j) == val(first[0]));
            if cap != Piece::NONE {
                let x = make_index_spec(c, captured_sq(d).id(), captured_pc(d), bk, mr) as u32;
                assert(rem == first.push(x));
                assert(first.push(x).drop_last() =~= first);
                assert(feature_sum(w, first.push(x), j) == feature_sum(w, first, j) + val(x));
            } else {
                assert(rem =~= first);
            }
        }
        assert(s_add == val(make_index_spec(c, to, pc, bk, mr) as u32)) by {
            let x = make_index_spec(c, d.to[0].id(), d.pc[0], bk, mr) as u32;
            assert(add == seq![x]);
            assert(seq![x].drop_last() =~= Seq::<u32>::empty());
            assert(feature_sum(w, Seq::<u32>::empty(), j) == 0);
            assert(feature_sum(w, seq![x], j) == val(x));
        }
        let e1 = r0[j] - bias[j] - feature_sum(w, act_old, j);
        let e2 = r1[j] - r0[j] + s_rem;
        let e3 = r2[j] - r1[j] - s_add;
        let e4 = fresh[j] - bias[j] - feature_sum(w, act_new, j);
        assert(r2[j] - fresh[j] == e1 + e2 + e3 - e4);
        let diff = r2[j] - fresh[j];
        assert(diff % 65536 == 0) by (nonlinear_arith)
            requires
                diff == e1 + e2 + e3 - e4,
                e1 % 65536 == 0,
                e2 % 65536 == 0,
                e3 % 65536 == 0,
                e4 % 65536 == 0,
        ;
        assert(diff == 0) by (nonlinear_arith)
            requires
                diff % 65536 == 0,
                -65536 < diff < 65536,
        ;
    }
    assert(r2 =~= fresh);
    let p0 = prev.psqt_accumulation[c.id()]@;
    let q1 = psqt_apply(p0, pw, rem, false);
    let q2 = psqt_apply(q1, pw, add, true);
    let qf = psqt_apply(zeros16(), pw, act_new, true);
    lemma_psqt_apply_sum(zeros16(), pw, act_old, true, 0);
    lemma_psqt_apply_sum(p0, pw, rem, false, 0);
    lemma_psqt_apply_sum(q1, pw, add, true, 0);
    lemma_psqt_apply_sum(zeros16(), pw, act_new, true, 0);
    assert forall|j: int| 0 <= j < 16 implies #[trigger] q2[j] == qf[j] by {
        lemma_psqt_apply_sum(zeros16(), pw, act_old, true, j);
        lemma_psqt_apply_sum(p0, pw, rem, false, j);
        lemma_psqt_apply_sum(q1, pw, add, true, j);
        lemma_psqt_apply_sum(zeros16(), pw, act_new, true, j);
        let val = psqt_entry(pw, j);
        lemma_active_psqt_sum(old, c, bk, mr, pw, j, 90);
        lemma_active_psqt_sum(new, c, bk, mr, pw, j, 90);
        lemma_board_total_two(old.board@, new.board@, c, bk, mr, val, from, to, 90);
        assert(psqt_sum(pw, rem, j) == val(make_index_spec(c, from, pc, bk, mr) as u32) + if cap != Piece::NONE {
            val(make_index_spec(c, to, cap, bk, mr) as u32)
        } else {
            0
        }) by {
            let first = seq![make_index_spec(c, d.from[0].id(), d.pc[0], bk, mr) as u32];
            assert(first.drop_last() =~= Seq::<u32>::empty());
            assert(psqt_sum(pw, Seq::<u32>::empty(), j) == 0);
            assert(psqt_sum(pw, first, j) == val(first[0]));
            if cap != Piece::NONE {
                let x = make_index_spec(c, captured_sq(d).id(), captured_pc(d), bk, mr) as u32;
                assert(rem == first.push(x));
                assert(first.push(x).drop_last() =~= first);
                assert(psqt_sum(pw, first.push(x), j) == psqt_sum(pw, first, j) + val(x));
            } else {
                assert(rem =~= first);
            }
        }
        assert(psqt_sum(pw, add, j) == val(make_index_spec(c, to, pc, bk, mr) as u32)) by {
            let x = make_index_spec(c, d.to[0].id(), d.pc[0], bk, mr) as u32;
            assert(add == seq![x]);
            assert(seq![x].drop_last() =~= Seq::<u32>::empty());
            assert(psqt_sum(pw, Seq::<u32>::empty(), j) == 0);
            assert(psqt_sum(pw, seq![x], j) == val(x));
        }
    }
    assert(q2 =~= qf);
}

/// The threat features a diff takes away: the removed ones going forward,
/// the added ones going backward.
pub open spec fn diff_out(c: Color, mirror: bool, d: DirtyThreats, forward: bool) -> Seq<u32> {
    dirty_indices(c, mirror, d.recorded(), !forward)
}

/// The threat features a diff puts in: the added ones going forward, the
/// removed ones going backward.
pub open spec fn diff_in(c: Color, mirror: bool, d: DirtyThreats, forward: bool) -> Seq<u32> {
    dirty_indices(c, mirror, d.recorded(), forward)
}

/// What applying a threat diff to perspective `c`'s table sums `p` needs.
pub open spec fn row_diff_ok(model: &NnueModel, c: Color, mirror: bool, p: Seq<i32>, d: DirtyThreats, forward: bool) -> bool {
    let pw = model.ft.threat_psqt_weights@;
    &&& dirty_ok(&d)
    &&& psqt_apply_fits(p, pw, diff_out(c, mirror, d, forward), false)
    &&& psqt_apply_fits(psqt_apply(p, pw, diff_out(c, mirror, d, forward), false), pw, diff_in(c, mirror, d, forward), true)
}

/// Perspective `c`'s threat accumulator `row` after a threat diff.
pub open spec fn row_diff_acc(model: &NnueModel, c: Color, mirror: bool, row: Seq<i16>, d: DirtyThreats, forward: bool) -> Seq<i16> {
    let w = model.ft.threat_weights@;
    acc_apply(acc_apply(row, w, diff_out(c, mirror, d, forward), false), w, diff_in(c, mirror, d, forward), true)
}

/// Perspective `c`'s threat table sums `p` after a threat diff.
pub open spec fn row_diff_psqt(model: &NnueModel, c: Color, mirror: bool, p: Seq<i32>, d: DirtyThreats, forward: bool) -> Seq<i32> {
    let pw = model.ft.threat_psqt_weights@;
    psqt_apply(psqt_apply(p, pw, diff_out(c, mirror, d, forward), false), pw, diff_in(c, mirror, d, forward), true)
}

/// What applying a threat diff to perspective `c` of `from` needs.
pub open spec fn diff_ok(model: &NnueModel, c: Color, mirror: bool, from: Accumulator, d: DirtyThreats, forward: bool) -> bool {
    row_diff_ok(model, c, mirror, from.psqt_accumulation[c.id()]@, d, forward)
}

/// Perspective `c`'s threat accumulator after applying a diff to `from`.
pub open spec fn diff_acc(model: &NnueModel, c: Color, mirror: bool, from: Accumulator, d: DirtyThreats, forward: bool) -> Seq<i16> {
    row_diff_acc(model, c, mirror, from.accumulation[c.id()]@, d, forward)
}

/// Perspective `c`'s threat table sums after applying a diff to `from`.
pub open spec fn diff_psqt(model: &NnueModel, c: Color, mirror: bool, from: Accumulator, d: DirtyThreats, forward: bool) -> Seq<i32> {
    row_diff_psqt(model, c, mirror, from.psqt_accumulation[c.id()]@, d, forward)
}

/// Sets perspective `perspective` of `to_acc` to that of `from_acc` with a
/// threat diff applied: forward (`FORWARD`) it loses the removed features
/// and gains the added ones; backward the other way round.
pub fn apply_threat_diff<const FORWARD: bool>(
    model: &NnueModel,
    perspective: Color,
    mirror: bool,
    from_acc: &Accumulator,
    to_acc: &mut Accumulator,
    dirty: &DirtyThreats,
    simd: &Dispatch,
)
    requires
        diff_ok(model, perspective, mirror, *from_acc, *dirty, FORWARD),
    ensures
        final(to_acc).accumulation[perspective.id()]@ == diff_acc(model, perspective, mirror, *from_acc, *dirty, FORWARD),
        final(to_acc).psqt_accumulation[perspective.id()]@ == diff_psqt(model, perspective, mirror, *from_acc, *dirty, FORWARD),
        final(to_acc).computed[perspective.id()],
        final(to_acc).accumulation[perspective.opp().id()] == old(to_acc).accumulation[perspective.opp().id()],
        final(to_acc).psqt_accumulation[perspective.opp().id()] == old(to_acc).psqt_accumulation[perspective.opp().id()],
        final(to_acc).computed[perspective.opp().id()] == old(to_acc).computed[perspective.opp().id()],
{
    let c = perspective.index();
    let mut row: [i16; 1024] = from_acc.accumulation[c];
    let mut psqt: [i32; 16] = from_acc.psqt_accumulation[c];
    let mut list_a = IndexList::new();
    let mut list_b = IndexList::new();
    if FORWARD {
        full_threats::append_changed_indices(perspective, mirror, dirty, &mut list_a, &mut list_b);
    } else {
        full_threats::append_changed_indices(perspective, mirror, dirty, &mut list_b, &mut list_a);
    }
    proof {
        assert(list_a@ =~= diff_out(perspective, mirror, *dirty, FORWARD));
        assert(list_b@ =~= diff_in(perspective, mirror, *dirty, FORWARD));
    }
    apply_features(&model.ft.threat_weights, &model.ft.threat_psqt_weights, list_a.as_slice(), &mut row, &mut psqt, false, simd);
    apply_features(&model.ft.threat_weights, &model.ft.threat_psqt_weights, list_b.as_slice(), &mut row, &mut psqt, true, simd);
    to_acc.accumulation[c] = row;
    to_acc.psqt_accumulation[c] = psqt;
    to_acc.computed[c] = true;
}

/// Perspective `c` of the threat accumulators cannot be updated and must be
/// rebuilt.
pub open spec fn threat_needs_refresh(prev: Accumulator, d: DirtyThreats, c: Color) -> bool {
    d.requires_refresh[c.id()] || !prev.computed[c.id()]
}

/// What `update_threat_accumulator_incremental` needs of perspective `c`.
pub open spec fn threat_update_ok(model: &NnueModel, pos: &Position, prev: Accumulator, d: DirtyThreats, c: Color) -> bool {
    if threat_needs_refresh(prev, d, c) {
        threat_refresh_ok(model, pos, c)
    } else {
        diff_ok(model, c, feature_bucket_spec(c, pos).1, prev, d, true)
    }
}

/// Brings both perspectives' threat accumulators up to date after a move:
/// a perspective that needs it, or whose previous accumulators were not
/// computed, is rebuilt; otherwise the move's threat diff is applied to
/// `prev`.
pub fn update_threat_accumulator_incremental(
    model: &NnueModel,
    pos: &Position,
    prev: &Accumulator,
    acc: &mut Accumulator,
    dirty: &DirtyThreats,
    simd: &Dispatch,
)
    requires
        pos.valid(),
        forall|c: Color| #[trigger] threat_update_ok(model, pos, *prev, *dirty, c),
    ensures
        forall|c: Color| #[trigger] final(acc).accumulation[c.id()]@ == if threat_needs_refresh(*prev, *dirty, c) {
            acc_apply(zeros1024(), model.ft.threat_weights@, threat_list(pos, c), true)
        } else {
            diff_acc(model, c, feature_bucket_spec(c, pos).1, *prev, *dirty, true)
        },
        forall|c: Color| #[trigger] final(acc).psqt_accumulation[c.id()]@ == if threat_needs_refresh(*prev, *dirty, c) {
            psqt_apply(zeros16(), model.ft.threat_psqt_weights@, threat_list(pos, c), true)
        } else {
            diff_psqt(model, c, feature_bucket_spec(c, pos).1, *prev, *dirty, true)
        },
        final(acc).computed@ == seq![true, true],
{
    proof {
        assert(threat_update_ok(model, pos, *prev, *dirty, Color::White));
        assert(threat_update_ok(model, pos, *prev, *dirty, Color::Black));
    }
    update_threat_one(model, pos, Color::White, prev, acc, dirty, simd);
    update_threat_one(model, pos, Color::Black, prev, acc, dirty, simd);
    proof {
        assert(acc.computed@ =~= seq![true, true]);
        assert forall|c: Color| #[trigger] acc.accumulation[c.id()]@ == if threat_needs_refresh(*prev, *dirty, c) {
            acc_apply(zeros1024(), model.ft.threat_weights@, threat_list(pos, c), true)
        } else {
            diff_acc(model, c, feature_bucket_spec(c, pos).1, *prev, *dirty, true)
        } by {
            if c == Color::White {
            } else {
            }
        }
        assert forall|c: Color| #[trigger] acc.psqt_accumulation[c.id()]@ == if threat_needs_refresh(*prev, *dirty, c) {
            psqt_apply(zeros16(), model.ft.threat_psqt_weights@, threat_list(pos, c), true)
        } else {
            diff_psqt(model, c, feature_bucket_spec(c, pos).1, *prev, *dirty, true)
        } by {
            if c == Color::White {
            } else {
            }
        }
    }
}

fn update_threat_one(
    model: &NnueModel,
    pos: &Position,
    perspective: Color,
    prev: &Accumulator,
    acc: &mut Accumulator,
    dirty: &DirtyThreats,
    simd: &Dispatch,
)
    requires
        pos.valid(),
        threat_update_ok(model, pos, *prev, *dirty, perspective),
    ensures
        final(acc).accumulation[perspective.id()]@ == if threat_needs_refresh(*prev, *dirty, perspective) {
            acc_apply(zeros1024(), model.ft.threat_weights@, threat_list(pos, perspective), true)
        } else {
            diff_acc(model, perspective, feature_bucket_spec(perspective, pos).1, *prev, *dirty, true)
        },
        final(acc).psqt_accumulation[perspective.id()]@ == if threat_needs_refresh(*prev, *dirty, perspective) {
            psqt_apply(zeros16(), model.ft.threat_psqt_weights@, threat_list(pos, perspective), true)
        } else {
            diff_psqt(model, perspective, feature_bucket_spec(perspective, pos).1, *prev, *dirty, true)
        },
        final(acc).computed[perspective.id()],
        final(acc).accumulation[perspective.opp().id()] == old(acc).accumulation[perspective.opp().id()],
        final(acc).psqt_accumulation[perspective.opp().id()] == old(acc).psqt_accumulation[perspective.opp().id()],
        final(acc).computed[perspective.opp().id()] == old(acc).computed[perspective.opp().id()],
{
    let c = perspective.index();
    if dirty.requires_refresh[c] || !prev.computed[c] {
        refresh_threat_accumulator_one(model, pos, perspective, acc, simd);
    } else {
        let (_, mirror, _) = make_feature_bucket(perspective, pos);
        apply_threat_diff::<true>(model, perspective, mirror, prev, acc, dirty, simd);
    }
}

/// A state from which perspective `c` can be brought up to date: computed,
/// or starting a rebuild.
pub open spec fn usable_at(st: AccumulatorState, c: Color) -> bool {
    st.acc.computed[c.id()] || (st.diff matches DiffType::DirtyThreats(dt) && dt.requires_refresh[c.id()])
}

/// The highest state below `n`, but above 0, that is usable for `c` (see
/// `usable_at`), or 0.
pub open spec fn last_usable(stack: Seq<AccumulatorState>, c: Color, n: int) -> int
    decreases n,
{
    if n <= 1 {
        0
    } else if usable_at(stack[n - 1], c) {
        n - 1
    } else {
        last_usable(stack, c, n - 1)
    }
}

proof fn lemma_last_usable(stack: Seq<AccumulatorState>, c: Color, n: int)
    requires
        1 <= n,
    ensures
        0 <= last_usable(stack, c, n) < n,
        last_usable(stack, c, n) > 0 ==> usable_at(stack[last_usable(stack, c, n)], c),
        forall|k: int| last_usable(stack, c, n) < k < n ==> !#[trigger] usable_at(stack[k], c),
    decreases n,
{
    if n > 1 && !usable_at(stack[n - 1], c) {
        lemma_last_usable(stack, c, n - 1);
    }
}

/// The threat rows of perspective `c` at state `k` after the forward
/// updates from state `last`.
pub open spec fn fwd_rows(model: &NnueModel, stack: Seq<AccumulatorState>, c: Color, mirror: bool, last: int, k: int) -> (Seq<i16>, Seq<i32>)
    decreases k - last,
{
    if k <= last {
        (stack[last].acc.accumulation[c.id()]@, stack[last].acc.psqt_accumulation[c.id()]@)
    } else {
        let prev = fwd_rows(model, stack, c, mirror, last, k - 1);
        match stack[k].diff {
            DiffType::DirtyThreats(dt) => (
                row_diff_acc(model, c, mirror, prev.0, dt, true),
                row_diff_psqt(model, c, mirror, prev.1, dt, true),
            ),
            _ => (stack[k].acc.accumulation[c.id()]@, stack[k].acc.psqt_accumulation[c.id()]@),
        }
    }
}

/// Every forward update from state `last` up to state `k` can be applied.
pub open spec fn fwd_ok(model: &NnueModel, stack: Seq<AccumulatorState>, c: Color, mirror: bool, last: int, k: int) -> bool {
    forall|j: int|
        last < j <= k ==> (#[trigger] stack[j].diff matches DiffType::DirtyThreats(dt) ==> row_diff_ok(
            model,
            c,
            mirror,
            fwd_rows(model, stack, c, mirror, last, j - 1).1,
            dt,
            true,
        ))
}

/// The threat rows of perspective `c` at state `k` after rebuilding the
/// state `top` and updating backward from it.
pub open spec fn bwd_rows(
    model: &NnueModel,
    pos: &Position,
    stack: Seq<AccumulatorState>,
    c: Color,
    mirror: bool,
    top: int,
    k: int,
) -> (Seq<i16>, Seq<i32>)
    decreases top - k,
{
    if k >= top {
        (
            acc_apply(zeros1024(), model.ft.threat_weights@, threat_list(pos, c), true),
            psqt_apply(zeros16(), model.ft.threat_psqt_weights@, threat_list(pos, c), true),
        )
    } else {
        let next = bwd_rows(model, pos, stack, c, mirror, top, k + 1);
        match stack[k + 1].diff {
            DiffType::DirtyThreats(dt) => (
                row_diff_acc(model, c, mirror, next.0, dt, false),
                row_diff_psqt(model, c, mirror, next.1, dt, false),
            ),
            _ => (stack[k].acc.accumulation[c.id()]@, stack[k].acc.psqt_accumulation[c.id()]@),
        }
    }
}

/// Every backward update from state `top` down to state `k` can be applied.
pub open spec fn bwd_ok(
    model: &NnueModel,
    pos: &Position,
    stack: Seq<AccumulatorState>,
    c: Color,
    mirror: bool,
    top: int,
    k: int,
) -> bool {
    forall|j: int|
        k <= j < top ==> (#[trigger] stack[j + 1].diff matches DiffType::DirtyThreats(dt) ==> row_diff_ok(
            model,
            c,
            mirror,
            bwd_rows(model, pos, stack, c, mirror, top, j + 1).1,
            dt,
            false,
        ))
}

/// The state `st` with perspective `c`'s threat rows as given, and marked
/// computed when `mark` says so.
pub open spec fn rows_are(st: AccumulatorState, old_st: AccumulatorState, c: Color, rows: (Seq<i16>, Seq<i32>)) -> bool {
    &&& st.acc.accumulation[c.id()]@ == rows.0
    &&& st.acc.psqt_accumulation[c.id()]@ == rows.1
    &&& st.acc.accumulation[c.opp().id()] == old_st.acc.accumulation[c.opp().id()]
    &&& st.acc.psqt_accumulation[c.opp().id()] == old_st.acc.psqt_accumulation[c.opp().id()]
    &&& st.acc.computed[c.opp().id()] == old_st.acc.computed[c.opp().id()]
    &&& st.diff == old_st.diff
}

/// Brings perspective `perspective` of the threat accumulators of the
/// first `stack_size` states up to date for the top state. From the last
/// usable state (see `last_usable`): if it is computed, the threat diffs of
/// the states above it are applied forward; otherwise the top state is
/// rebuilt and the diffs applied backward down to that state.
pub fn evaluate_threat_side(
    model: &NnueModel,
    pos: &Position,
    perspective: Color,
    stack: &mut [AccumulatorState],
    stack_size: usize,
    simd: &Dispatch,
)
    requires
        pos.valid(),
        1 <= stack_size <= old(stack)@.len(),
        ({
            let last = last_usable(old(stack)@, perspective, stack_size as int);
            let mirror = feature_bucket_spec(perspective, pos).1;
            if old(stack)@[last].acc.computed[perspective.id()] {
                fwd_ok(model, old(stack)@, perspective, mirror, last, stack_size - 1)
            } else {
                &&& threat_refresh_ok(model, pos, perspective)
                &&& bwd_ok(model, pos, old(stack)@, perspective, mirror, stack_size - 1, last)
            }
        }),
    ensures
        final(stack)@.len() == old(stack)@.len(),
        ({
            let last = last_usable(old(stack)@, perspective, stack_size as int);
            let mirror = feature_bucket_spec(perspective, pos).1;
            let top = stack_size - 1;
            if old(stack)@[last].acc.computed[perspective.id()] {
                forall|k: int|
                    0 <= k < old(stack)@.len() ==> #[trigger] final(stack)@[k] == old(stack)@[k] || (last < k
                        < stack_size && old(stack)@[k].diff is DirtyThreats && rows_are(
                        final(stack)@[k],
                        old(stack)@[k],
                        perspective,
                        fwd_rows(model, old(stack)@, perspective, mirror, last, k),
                    ))
            } else {
                &&& rows_are(
                    final(stack)@[top],
                    old(stack)@[top],
                    perspective,
                    bwd_rows(model, pos, old(stack)@, perspective, mirror, top, top),
                )
                &&& forall|k: int|
                    0 <= k < old(stack)@.len() && k != top ==> #[trigger] final(stack)@[k] == old(stack)@[k] || (
                    last <= k < top && old(stack)@[k + 1].diff is DirtyThreats && rows_are(
                        final(stack)@[k],
                        old(stack)@[k],
                        perspective,
                        bwd_rows(model, pos, old(stack)@, perspective, mirror, top, k),
                    ))
            }
        }),
{
    let ghost s0 = stack@;
    let c = perspective.index();
    let mut last_usable_idx: usize = 0;
    let mut idx: usize = stack_size;
    while idx > 1
        invariant_except_break
            last_usable(s0, perspective, stack_size as int) == last_usable(s0, perspective, idx as int),
            last_usable_idx == 0,
        invariant
            1 <= idx <= stack_size,
            stack_size <= stack@.len(),
            stack@ == s0,
            c == perspective.id(),
            c < 2,
        ensures
            last_usable_idx == last_usable(s0, perspective, stack_size as int),
        decreases idx,
    {
        let i = idx - 1;
        let st_i = stack[i];
        let usable = st_i.acc.computed[c] || match st_i.diff {
            DiffType::DirtyThreats(dt) => dt.requires_refresh[c],
            _ => false,
        };
        proof {
            assert(st_i == s0[i as int]);
            assert(usable == usable_at(s0[i as int], perspective));
        }
        if usable {
            last_usable_idx = i;
            break;
        }
        idx = i;
    }
    proof {
        lemma_last_usable(s0, perspective, stack_size as int);
    }
    let (_, mirror, _) = make_feature_bucket(perspective, pos);
    if stack[last_usable_idx].acc.computed[c] {
        let mut next = last_usable_idx + 1;
        proof {
            assert(stack@[last_usable_idx as int].acc.accumulation[perspective.id()]@ == fwd_rows(model, s0, perspective, mirror, last_usable_idx as int, last_usable_idx as int).0);
        }
        while next < stack_size
            invariant
                last_usable_idx < next <= stack_size,
                stack_size <= stack@.len(),
                stack@.len() == s0.len(),
                last_usable_idx == last_usable(s0, perspective, stack_size as int),
                mirror == feature_bucket_spec(perspective, pos).1,
                s0[last_usable_idx as int].acc.computed[perspective.id()],
                fwd_ok(model, s0, perspective, mirror, last_usable_idx as int, stack_size - 1),
                stack@[next - 1].acc.accumulation[perspective.id()]@ == fwd_rows(model, s0, perspective, mirror, last_usable_idx as int, next - 1).0,
                stack@[next - 1].acc.psqt_accumulation[perspective.id()]@ == fwd_rows(model, s0, perspective, mirror, last_usable_idx as int, next - 1).1,
                forall|k: int|
                    0 <= k < s0.len() ==> #[trigger] stack@[k] == s0[k] || (last_usable_idx < k < next && s0[k].diff is DirtyThreats && rows_are(
                        stack@[k],
                        s0[k],
                        perspective,
                        fwd_rows(model, s0, perspective, mirror, last_usable_idx as int, k),
                    )),
            decreases stack_size - next,
        {
            let from_acc = stack[next - 1].acc;
            let mut st = stack[next];
            proof {
                assert(st == s0[next as int] || (s0[next as int].diff is DirtyThreats && rows_are(st, s0[next as int], perspective, fwd_rows(model, s0, perspective, mirror, last_usable_idx as int, next as int))));
                assert(st == s0[next as int]);
            }
            match st.diff {
                DiffType::DirtyThreats(dt) => {
                    proof {
                        assert(s0[next as int].diff matches DiffType::DirtyThreats(d2) ==> row_diff_ok(model, perspective, mirror, fwd_rows(model, s0, perspective, mirror, last_usable_idx as int, next - 1).1, d2, true));
                    }
                    apply_threat_diff::<true>(model, perspective, mirror, &from_acc, &mut st.acc, &dt, simd);
                    stack[next] = st;
                },
                _ => {},
            }
            next = next + 1;
        }
    } else {
        let top = stack_size - 1;
        let mut st_top = stack[top];
        refresh_threat_accumulator_one(model, pos, perspective, &mut st_top.acc, simd);
        stack[top] = st_top;
        let mut next = top;
        while next > last_usable_idx
            invariant
                last_usable_idx <= next <= top,
                top == stack_size - 1,
                stack_size <= stack@.len(),
                stack@.len() == s0.len(),
                last_usable_idx == last_usable(s0, perspective, stack_size as int),
                mirror == feature_bucket_spec(perspective, pos).1,
                bwd_ok(model, pos, s0, perspective, mirror, top as int, last_usable_idx as int),
                rows_are(stack@[top as int], s0[top as int], perspective, bwd_rows(model, pos, s0, perspective, mirror, top as int, top as int)),
                stack@[next as int].acc.accumulation[perspective.id()]@ == bwd_rows(model, pos, s0, perspective, mirror, top as int, next as int).0,
                stack@[next as int].acc.psqt_accumulation[perspective.id()]@ == bwd_rows(model, pos, s0, perspective, mirror, top as int, next as int).1,
                forall|k: int|
                    0 <= k < s0.len() && k != top ==> #[trigger] stack@[k] == s0[k] || (next <= k < top && s0[k + 1].diff is DirtyThreats && rows_are(
                        stack@[k],
                        s0[k],
                        perspective,
                        bwd_rows(model, pos, s0, perspective, mirror, top as int, k),
                    )),
            decreases next,
        {
            let i = next - 1;
            let from_acc = stack[i + 1].acc;
            let mut st = stack[i];
            proof {
                assert(st == s0[i as int]);
                assert(stack@[i + 1].diff == s0[i + 1].diff);
            }
            match stack[i + 1].diff {
                DiffType::DirtyThreats(dt) => {
                    proof {
                        assert(s0[i + 1].diff matches DiffType::DirtyThreats(d2) ==> row_diff_ok(model, perspective, mirror, bwd_rows(model, pos, s0, perspective, mirror, top as int, i + 1).1, d2, false));
                    }
                    apply_threat_diff::<false>(model, perspective, mirror, &from_acc, &mut st.acc, &dt, simd);
                    stack[i] = st;
                },
                _ => {},
            }
            next = i;
        }
    }
}

} // verus!
