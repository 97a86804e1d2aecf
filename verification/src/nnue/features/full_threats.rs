//! The threat feature set: one feature per piece attacking another, with
//! the attacker's and the victim's squares.

use vstd::prelude::*;

use super::half_ka_v2_hm::{
    all_pieces, compute_valid_bb, feature_bucket_spec, feature_index, feature_pieces, flip_piece,
    index_map, index_map_spec, make_feature_bucket, valid_sq,
};
use super::index_list::{IndexList, MAX_ACTIVE};
use crate::nnue::accumulator::{DirtyThreat, DirtyThreats};
use crate::bitboard::attacks::{
    PseudoAttacksTable, bishop_attack_has, cannon_attack_has, king_step, knight_attack_has,
    pawn_attack_has, pseudo_attack_has, rook_attack_has,
};
use crate::bitboard::lines::pseudo_attacks;
use crate::bitboard::{
    Bitboard, attacks_bb_bishop, attacks_bb_cannon, attacks_bb_knight, attacks_bb_rook,
    pawn_attacks_bb,
};
use crate::position::Position;
use crate::types::{Color, Piece, PieceType, Square, file_of, make_piece, piece_from_raw, rank_of};

verus! {

/// Hash of the feature set's layout.
pub const HASH_VALUE: u32 = 0x8f23_4cb8;

/// Number of threat features.
pub const DIMENSIONS: u32 = 45_547;

/// Most threat features active at once.
pub const MAX_ACTIVE_DIMENSIONS: usize = 64;

/// Row `i` of the table of attacker/victim pairs that have features, as a
/// bit mask over victim piece indices.
pub open spec fn valid_pair_row(i: int) -> u16 {
    if i == 1 || i == 3 || i == 5 {
        0x7efe
    } else if i == 2 {
        0x3a2e
    } else if i == 4 {
        0x7c78
    } else if i == 6 {
        0x3afa
    } else if i == 9 || i == 11 || i == 13 {
        0xfe7e
    } else if i == 10 {
        0xae3a
    } else if i == 12 {
        0x787c
    } else if i == 14 {
        0xfa3a
    } else if i == 15 {
        0x6c38
    } else {
        0
    }
}

/// A piece with index `a` attacking one with index `v` has features.
pub open spec fn valid_pair(a: int, v: int) -> bool {
    0 <= v < 16 && (valid_pair_row(a) >> (v as u16)) & 1u16 == 1u16
}

fn valid_pair_row_exec(i: usize) -> (r: u16)
    ensures
        r == valid_pair_row(i as int),
{
    match i {
        1 | 3 | 5 => 0x7efe,
        2 => 0x3a2e,
        4 => 0x7c78,
        6 => 0x3afa,
        9 | 11 | 13 => 0xfe7e,
        10 => 0xae3a,
        12 => 0x787c,
        14 => 0xfa3a,
        15 => 0x6c38,
        _ => 0,
    }
}

/// Whether a piece with index `a` attacking one with index `v` has
/// features.
pub fn valid_pair_exec(a: usize, v: usize) -> (r: bool)
    requires
        v < 16,
    ensures
        r == valid_pair(a as int, v as int),
{
    (valid_pair_row_exec(a) >> (v as u16)) & 1 == 1
}

fn valid_pairs_row(i: usize) -> (row: [bool; 16])
    ensures
        forall|j: int| 0 <= j < 16 ==> #[trigger] row[j] == valid_pair(i as int, j),
{
    let mut row = [false; 16];
    let mut j: usize = 0;
    while j < 16
        invariant
            j <= 16,
            forall|k: int| 0 <= k < j ==> #[trigger] row[k] == valid_pair(i as int, k),
        decreases 16 - j,
    {
        row[j] = valid_pair_exec(i, j);
        j = j + 1;
    }
    row
}

/// The table of attacker/victim pairs that have features, by piece index.
pub fn compute_valid_pairs() -> (t: [[bool; 16]; 16])
    ensures
        forall|i: int, j: int| 0 <= i < 16 && 0 <= j < 16 ==> #[trigger] t[i][j] == valid_pair(i, j),
{
    let mut t = [[false; 16]; 16];
    let mut i: usize = 0;
    while i < 16
        invariant
            i <= 16,
            forall|a: int, j: int| 0 <= a < i && 0 <= j < 16 ==> #[trigger] t[a][j] == valid_pair(a, j),
        decreases 16 - i,
    {
        t[i] = valid_pairs_row(i);
        i = i + 1;
    }
    t
}

/// The board holding a piece on each orthogonal neighbour of `s`.
pub open spec fn king_ring(s: int) -> Bitboard {
    choose|b: Bitboard| b.wf() && forall|t: int| #[trigger] b.has(t) == king_step(s, t)
}

/// The squares that `attacker` on `from` threatens on an empty board: a
/// pawn's attacks; for a cannon, the squares beyond its orthogonal
/// neighbours; for the other pieces their unobstructed attacks.
pub open spec fn threat_attack_has(attacker: Piece, from: int, to: int) -> bool {
    let pt = attacker.type_of();
    if pt == PieceType::Pawn {
        pawn_attack_has(attacker.color_of(), from, to)
    } else if pt == PieceType::Cannon {
        cannon_attack_has(from, king_ring(from), to)
    } else {
        pseudo_attack_has(pt.id(), from, to)
    }
}

/// Threats between pieces of the same type (but knights) are counted once:
/// pawns only across files for enemies and along ranks for friends, the
/// others from the higher square.
pub open spec fn semi_excluded(a: Piece, v: Piece, from: int, to: int) -> bool {
    let pt = a.type_of();
    let enemy = a.color_of() != v.color_of();
    &&& pt == v.type_of()
    &&& (pt != PieceType::Pawn || (enemy && file_of(from) == file_of(to)) || (!enemy && rank_of(
        from,
    ) == rank_of(to)))
    &&& pt != PieceType::Knight
}

/// The `ka`-th piece in feature order on `from` threatening the `kv`-th on
/// `to` has a feature.
pub open spec fn threat_included(ka: int, from: int, kv: int, to: int) -> bool {
    let a = feature_pieces()[ka];
    let v = feature_pieces()[kv];
    &&& 0 <= ka < 14
    &&& 0 <= kv < 14
    &&& valid_sq(a, from)
    &&& valid_pair(a.id(), v.id())
    &&& threat_attack_has(a, from, to)
    &&& valid_sq(v, to)
    &&& (!semi_excluded(a, v, from, to) || from > to)
}

/// The place of a threat in the order features are numbered: by attacker,
/// its square, victim, then the victim's square.
pub open spec fn threat_pos(ka: int, from: int, kv: int, to: int) -> int {
    ((ka * 90 + from) * 14 + kv) * 90 + to
}

/// The threat at place `p` has a feature.
pub open spec fn included_at(p: int) -> bool {
    let q1 = p / 90;
    let q2 = q1 / 14;
    threat_included(q2 / 90, q2 % 90, q1 % 14, p % 90)
}

/// The number of threats with a feature before place `p`.
pub open spec fn threat_rank(p: int) -> nat
    decreases p,
{
    if p <= 0 {
        0
    } else {
        threat_rank(p - 1) + if included_at(p - 1) {
            1nat
        } else {
            0nat
        }
    }
}

/// The position of a threat in the offset table.
pub open spec fn flat_index(aid: int, from: int, to: int, vid: int) -> int {
    ((aid * 90 + from) * 90 + to) * 16 + vid
}

/// Size of the offset table.
pub open spec fn table_size() -> int {
    2073600int
}

/// A piece index names a piece.
pub open spec fn piece_id_ok(id: int) -> bool {
    1 <= id <= 15 && id != 8
}

/// The feature offset of attacker index `aid` on `from` threatening victim
/// index `vid` on `to`: its rank among the threats with a feature (modulo
/// 2^16), or `DIMENSIONS` where it has none.
pub open spec fn threat_offset(aid: int, from: int, to: int, vid: int) -> u16 {
    let ka = feature_index(piece_of_id(aid));
    let kv = feature_index(piece_of_id(vid));
    if piece_id_ok(aid) && piece_id_ok(vid) && threat_included(ka, from, kv, to) {
        (threat_rank(threat_pos(ka, from, kv, to)) % 65536) as u16
    } else {
        DIMENSIONS as u16
    }
}

/// The piece with index `id` (in feature order).
pub open spec fn piece_of_id(id: int) -> Piece {
    if id <= 7 {
        feature_pieces()[id - 1]
    } else {
        feature_pieces()[id - 2]
    }
}

/// The offset table entry at `idx` once the threats before place `cur`
/// are numbered.
pub open spec fn table_expect(idx: int, cur: int) -> u16 {
    let vid = idx % 16;
    let q1 = idx / 16;
    let to = q1 % 90;
    let q2 = q1 / 90;
    let from = q2 % 90;
    let aid = q2 / 90;
    let ka = feature_index(piece_of_id(aid));
    let kv = feature_index(piece_of_id(vid));
    if piece_id_ok(aid) && piece_id_ok(vid) && threat_included(ka, from, kv, to) && threat_pos(
        ka,
        from,
        kv,
        to,
    ) < cur {
        (threat_rank(threat_pos(ka, from, kv, to)) % 65536) as u16
    } else {
        DIMENSIONS as u16
    }
}

proof fn lemma_pos_decode(ka: int, from: int, kv: int, to: int)
    requires
        0 <= ka,
        0 <= from < 90,
        0 <= kv < 14,
        0 <= to < 90,
    ensures
        threat_pos(ka, from, kv, to) / 90 == (ka * 90 + from) * 14 + kv,
        threat_pos(ka, from, kv, to) % 90 == to,
        (threat_pos(ka, from, kv, to) / 90) % 14 == kv,
        (threat_pos(ka, from, kv, to) / 90) / 14 == ka * 90 + from,
        ((threat_pos(ka, from, kv, to) / 90) / 14) % 90 == from,
        ((threat_pos(ka, from, kv, to) / 90) / 14) / 90 == ka,
        included_at(threat_pos(ka, from, kv, to)) == threat_included(ka, from, kv, to),
        threat_pos(ka, from, kv, to) >= 0,
{
    let q2 = ka * 90 + from;
    let q1 = q2 * 14 + kv;
    let p = q1 * 90 + to;
    vstd::arithmetic::div_mod::lemma_fundamental_div_mod_converse(p, 90, q1, to);
    vstd::arithmetic::div_mod::lemma_fundamental_div_mod_converse(q1, 14, q2, kv);
    vstd::arithmetic::div_mod::lemma_fundamental_div_mod_converse(q2, 90, ka, from);
}

proof fn lemma_flat_decode(aid: int, from: int, to: int, vid: int)
    requires
        0 <= aid,
        0 <= from < 90,
        0 <= to < 90,
        0 <= vid < 16,
    ensures
        flat_index(aid, from, to, vid) % 16 == vid,
        (flat_index(aid, from, to, vid) / 16) % 90 == to,
        ((flat_index(aid, from, to, vid) / 16) / 90) % 90 == from,
        ((flat_index(aid, from, to, vid) / 16) / 90) / 90 == aid,
{
    let q2 = aid * 90 + from;
    let q1 = q2 * 90 + to;
    let x = q1 * 16 + vid;
    vstd::arithmetic::div_mod::lemma_fundamental_div_mod_converse(x, 16, q1, vid);
    vstd::arithmetic::div_mod::lemma_fundamental_div_mod_converse(q1, 90, q2, to);
    vstd::arithmetic::div_mod::lemma_fundamental_div_mod_converse(q2, 90, aid, from);
}

proof fn lemma_flat_encode(idx: int)
    requires
        0 <= idx < table_size(),
    ensures
        ({
            let q1 = idx / 16;
            let q2 = q1 / 90;
            &&& idx == flat_index(q2 / 90, q2 % 90, q1 % 90, idx % 16)
            &&& 0 <= q2 / 90 < 16
            &&& 0 <= q2 % 90 < 90
            &&& 0 <= q1 % 90 < 90
            &&& 0 <= idx % 16 < 16
        }),
{
    let q1 = idx / 16;
    let q2 = q1 / 90;
    vstd::arithmetic::div_mod::lemma_fundamental_div_mod(idx, 16);
    vstd::arithmetic::div_mod::lemma_fundamental_div_mod(q1, 90);
    vstd::arithmetic::div_mod::lemma_fundamental_div_mod(q2, 90);
    assert(0 <= idx % 16 < 16) by {
        vstd::arithmetic::div_mod::lemma_mod_bound(idx, 16);
    }
    assert(0 <= q1 % 90 < 90) by {
        vstd::arithmetic::div_mod::lemma_mod_bound(q1, 90);
    }
    assert(0 <= q2 % 90 < 90) by {
        vstd::arithmetic::div_mod::lemma_mod_bound(q2, 90);
    }
    assert(q1 < 129600) by {
        vstd::arithmetic::div_mod::lemma_div_by_multiple_is_strongly_ordered(idx, 2073600, 129600, 16);
    }
    assert(q2 < 1440) by {
        vstd::arithmetic::div_mod::lemma_div_by_multiple_is_strongly_ordered(q1, 129600, 1440, 90);
    }
    assert(q2 / 90 < 16) by {
        vstd::arithmetic::div_mod::lemma_div_by_multiple_is_strongly_ordered(q2, 1440, 16, 90);
    }
    assert(0 <= q1) by {
        vstd::arithmetic::div_mod::lemma_div_pos_is_pos(idx, 16);
    }
    assert(0 <= q2) by {
        vstd::arithmetic::div_mod::lemma_div_pos_is_pos(q1, 90);
    }
    assert(0 <= q2 / 90) by {
        vstd::arithmetic::div_mod::lemma_div_pos_is_pos(q2, 90);
    }
}

/// Piece indices and feature order correspond.
proof fn lemma_piece_ids(aid: int)
    requires
        piece_id_ok(aid),
    ensures
        0 <= feature_index(piece_of_id(aid)) < 14,
        feature_pieces()[feature_index(piece_of_id(aid))] == piece_of_id(aid),
        piece_of_id(aid).id() == aid,
{
}

proof fn lemma_feature_order(k: int)
    requires
        0 <= k < 14,
    ensures
        piece_id_ok(feature_pieces()[k].id()),
        piece_of_id(feature_pieces()[k].id()) == feature_pieces()[k],
        feature_index(feature_pieces()[k]) == k,
{
}

proof fn lemma_rank_skip(a: int, b: int)
    requires
        0 <= a <= b,
        forall|p: int| a <= p < b ==> !#[trigger] included_at(p),
    ensures
        threat_rank(b) == threat_rank(a),
    decreases b - a,
{
    if a < b {
        assert(!included_at(b - 1));
        lemma_rank_skip(a, b - 1);
    }
}

proof fn lemma_expect_skip(idx: int, a: int, b: int)
    requires
        0 <= idx < table_size(),
        0 <= a <= b,
        forall|p: int| a <= p < b ==> !#[trigger] included_at(p),
    ensures
        table_expect(idx, b) == table_expect(idx, a),
{
    lemma_flat_encode(idx);
    let q1 = idx / 16;
    let q2 = q1 / 90;
    let aid = q2 / 90;
    let vid = idx % 16;
    if piece_id_ok(aid) && piece_id_ok(vid) {
        lemma_piece_ids(aid);
        lemma_piece_ids(vid);
        let ka = feature_index(piece_of_id(aid));
        let kv = feature_index(piece_of_id(vid));
        lemma_pos_decode(ka, q2 % 90, kv, q1 % 90);
    }
}

proof fn lemma_expect_write(idx: int, ka: int, from: int, kv: int, to: int, cur: int)
    requires
        0 <= idx < table_size(),
        0 <= ka < 14,
        0 <= from < 90,
        0 <= kv < 14,
        0 <= to < 90,
        cur == threat_pos(ka, from, kv, to),
        threat_included(ka, from, kv, to),
    ensures
        idx == flat_index(feature_pieces()[ka].id(), from, to, feature_pieces()[kv].id())
            ==> table_expect(idx, cur + 1) == (threat_rank(cur) % 65536) as u16,
        idx != flat_index(feature_pieces()[ka].id(), from, to, feature_pieces()[kv].id())
            ==> table_expect(idx, cur + 1) == table_expect(idx, cur),
{
    lemma_flat_encode(idx);
    lemma_feature_order(ka);
    lemma_feature_order(kv);
    lemma_pos_decode(ka, from, kv, to);
    let aid0 = feature_pieces()[ka].id();
    let vid0 = feature_pieces()[kv].id();
    let q1 = idx / 16;
    let q2 = q1 / 90;
    let aid = q2 / 90;
    let vid = idx % 16;
    if idx == flat_index(aid0, from, to, vid0) {
        lemma_flat_decode(aid0, from, to, vid0);
    } else if piece_id_ok(aid) && piece_id_ok(vid) {
        lemma_piece_ids(aid);
        lemma_piece_ids(vid);
        let ka2 = feature_index(piece_of_id(aid));
        let kv2 = feature_index(piece_of_id(vid));
        lemma_pos_decode(ka2, q2 % 90, kv2, q1 % 90);
        if threat_pos(ka2, q2 % 90, kv2, q1 % 90) == cur {
            assert(ka2 == ka && q2 % 90 == from && kv2 == kv && q1 % 90 == to);
            assert(false);
        }
    }
}

proof fn lemma_rank_wrap(r: nat)
    ensures
        ((r + 1) % 65536) as u16 == ((r % 65536) as u16).wrapping_add(1u16),
{
    let m: int = (r % 65536) as int;
    let q: int = (r / 65536) as int;
    vstd::arithmetic::div_mod::lemma_fundamental_div_mod(r as int, 65536);
    vstd::arithmetic::div_mod::lemma_mod_bound(r as int, 65536);
    if m + 1 < 65536 {
        vstd::arithmetic::div_mod::lemma_fundamental_div_mod_converse(r as int + 1, 65536, q, m + 1);
    } else {
        vstd::arithmetic::div_mod::lemma_fundamental_div_mod_converse(r as int + 1, 65536, q + 1, 0);
    }
}

/// The number of threat places.
pub open spec fn threat_places() -> int {
    1587600int
}

/// Skips the places from `a` to `b`, none of which has a feature.
proof fn lemma_skip_all(a: int, b: int)
    requires
        0 <= a <= b,
        forall|p: int| a <= p < b ==> !#[trigger] included_at(p),
    ensures
        threat_rank(b) == threat_rank(a),
        forall|idx: int| 0 <= idx < table_size() ==> #[trigger] table_expect(idx, b) == table_expect(idx, a),
{
    lemma_rank_skip(a, b);
    assert forall|idx: int| 0 <= idx < table_size() implies #[trigger] table_expect(idx, b)
        == table_expect(idx, a) by {
        lemma_expect_skip(idx, a, b);
    }
}

/// Numbers, from place `cur` on, the threats of `attacker` (the `ka`-th
/// piece) on `from` against `attacked` (the `kv`-th) on the squares of
/// `targets`.
#[verifier::spinoff_prover]
#[verifier::rlimit(50)]
fn number_victim(
    data: &mut Vec<u16>,
    cumulative: &mut u16,
    ka: usize,
    from: Square,
    kv: usize,
    attacker: Piece,
    attacked: Piece,
    targets: Bitboard,
    Ghost(cur): Ghost<int>,
)
    requires
        ka < 14,
        from.valid(),
        kv < 14,
        attacker == feature_pieces()[ka as int],
        attacked == feature_pieces()[kv as int],
        valid_sq(attacker, from.id()),
        valid_pair(attacker.id(), attacked.id()),
        targets.wf(),
        forall|t: int| #[trigger] targets.has(t) == (threat_attack_has(attacker, from.id(), t) && valid_sq(attacked, t)),
        cur == threat_pos(ka as int, from.id(), kv as int, 0),
        *old(cumulative) == (threat_rank(cur) % 65536) as u16,
        old(data)@.len() == table_size(),
        forall|idx: int| 0 <= idx < table_size() ==> #[trigger] old(data)@[idx] == table_expect(idx, cur),
    ensures
        *final(cumulative) == (threat_rank(threat_pos(ka as int, from.id(), kv as int + 1, 0)) % 65536) as u16,
        final(data)@.len() == table_size(),
        forall|idx: int| 0 <= idx < table_size() ==> #[trigger] final(data)@[idx] == table_expect(idx, threat_pos(ka as int, from.id(), kv as int + 1, 0)),
{
    proof {
        lemma_feature_order(ka as int);
        lemma_feature_order(kv as int);
    }
    let pt = attacker.piece_type();
    let enemy = attacker.color() != attacked.color();
    let same_type = pt == attacked.piece_type();
    let from_idx = from.index();
    let mut targets_iter = targets;
    let ghost mut next: int = 0;
    let ghost mut pos: int = cur;
    while targets_iter.is_not_empty()
        invariant
            ka < 14,
            from_idx < 90,
            kv < 14,
            from.id() == from_idx,
            attacker == feature_pieces()[ka as int],
            attacked == feature_pieces()[kv as int],
            pt == attacker.type_of(),
            enemy == (attacker.color_of() != attacked.color_of()),
            same_type == (pt == attacked.type_of()),
            0 <= next <= 90,
            targets_iter.wf(),
            forall|t: int| #[trigger] targets.has(t) == (threat_attack_has(attacker, from_idx as int, t) && valid_sq(attacked, t)),
            forall|t: int| #[trigger] targets_iter.has(t) == (targets.has(t) && t >= next),
            valid_sq(attacker, from_idx as int),
            valid_pair(attacker.id(), attacked.id()),
            pos == threat_pos(ka as int, from_idx as int, kv as int, next),
            *cumulative == (threat_rank(pos) % 65536) as u16,
            data@.len() == table_size(),
            forall|idx: int| 0 <= idx < table_size() ==> #[trigger] data@[idx] == table_expect(idx, pos),
        decreases targets_iter@.len(),
    {
        let ghost prev_iter = targets_iter;
        let to = targets_iter.pop_lsb();
        proof {
            let a = pos;
            let b = threat_pos(ka as int, from_idx as int, kv as int, to.id());
            assert forall|p: int| a <= p < b implies !#[trigger] included_at(p) by {
                let t = p - threat_pos(ka as int, from_idx as int, kv as int, 0);
                lemma_pos_decode(ka as int, from_idx as int, kv as int, t);
                if threat_included(ka as int, from_idx as int, kv as int, t) {
                    assert(prev_iter.has(t));
                }
            }
            lemma_skip_all(a, b);
            pos = b;
            lemma_pos_decode(ka as int, from_idx as int, kv as int, to.id());
        }
        let to_idx = to.index();
        let same_file = from_idx % 9 == to_idx % 9;
        let same_rank = from_idx / 9 == to_idx / 9;
        let semi = same_type && (pt != PieceType::Pawn || (enemy && same_file) || (!enemy && same_rank)) && pt != PieceType::Knight;
        proof {
            assert(semi == semi_excluded(attacker, attacked, from_idx as int, to.id()));
        }
        if !semi || from_idx > to_idx {
            let idx0 = ((attacker.index() * 90 + from_idx) * 90 + to_idx) * 16 + attacked.index();
            proof {
                assert(idx0 == flat_index(attacker.id(), from_idx as int, to.id(), attacked.id()));
                assert(threat_included(ka as int, from_idx as int, kv as int, to.id()));
                assert forall|idx: int| 0 <= idx < table_size() implies #[trigger] data@.update(idx0 as int, *cumulative)[idx] == table_expect(idx, pos + 1) by {
                    lemma_expect_write(idx, ka as int, from_idx as int, kv as int, to.id(), pos);
                }
                lemma_rank_wrap(threat_rank(pos));
            }
            data[idx0] = *cumulative;
            *cumulative = cumulative.wrapping_add(1);
            proof {
                pos = pos + 1;
            }
        } else {
            proof {
                assert(!threat_included(ka as int, from_idx as int, kv as int, to.id()));
                lemma_skip_all(pos, pos + 1);
                pos = pos + 1;
            }
        }
        proof {
            next = to.id() + 1;
        }
    }
    proof {
        let a = pos;
        let b = threat_pos(ka as int, from_idx as int, kv as int, 90);
        assert forall|p: int| a <= p < b implies !#[trigger] included_at(p) by {
            let t = p - threat_pos(ka as int, from_idx as int, kv as int, 0);
            lemma_pos_decode(ka as int, from_idx as int, kv as int, t);
            if threat_included(ka as int, from_idx as int, kv as int, t) {
                assert(targets_iter.has(t));
                targets_iter.lemma_empty_iff();
            }
        }
        lemma_skip_all(a, b);
    }
}

/// Numbers, from place `cur` on, the threats of `attacker` (the `ka`-th
/// piece) on `from`, whose threatened squares are `attacks`.
#[verifier::spinoff_prover]
fn number_square(
    data: &mut Vec<u16>,
    cumulative: &mut u16,
    ka: usize,
    from: Square,
    attacker: Piece,
    attacks: Bitboard,
    valid_bb: &[Bitboard; 16],
    pieces: &[Piece; 14],
    Ghost(cur): Ghost<int>,
)
    requires
        ka < 14,
        from.valid(),
        attacker == feature_pieces()[ka as int],
        pieces@ == feature_pieces(),
        valid_sq(attacker, from.id()),
        forall|t: int| #[trigger] attacks.has(t) == threat_attack_has(attacker, from.id(), t),
        forall|pc: Piece, t: int| pc != Piece::NONE ==> #[trigger] valid_bb[pc.id()].has(t) == valid_sq(pc, t),
        forall|i: int| 0 <= i < 16 ==> #[trigger] valid_bb[i].wf(),
        cur == threat_pos(ka as int, from.id(), 0, 0),
        *old(cumulative) == (threat_rank(cur) % 65536) as u16,
        old(data)@.len() == table_size(),
        forall|idx: int| 0 <= idx < table_size() ==> #[trigger] old(data)@[idx] == table_expect(idx, cur),
    ensures
        *final(cumulative) == (threat_rank(threat_pos(ka as int, from.id() + 1, 0, 0)) % 65536) as u16,
        final(data)@.len() == table_size(),
        forall|idx: int| 0 <= idx < table_size() ==> #[trigger] final(data)@[idx] == table_expect(idx, threat_pos(ka as int, from.id() + 1, 0, 0)),
{
    proof {
        lemma_feature_order(ka as int);
    }
    let mut kv: usize = 0;
    let ghost mut pos: int = cur;
    while kv < 14
        invariant
            ka < 14,
            kv <= 14,
            from.valid(),
            attacker == feature_pieces()[ka as int],
            pieces@ == feature_pieces(),
            piece_id_ok(attacker.id()),
            valid_sq(attacker, from.id()),
            forall|t: int| #[trigger] attacks.has(t) == threat_attack_has(attacker, from.id(), t),
            forall|pc: Piece, t: int| pc != Piece::NONE ==> #[trigger] valid_bb[pc.id()].has(t) == valid_sq(pc, t),
            forall|i: int| 0 <= i < 16 ==> #[trigger] valid_bb[i].wf(),
            pos == threat_pos(ka as int, from.id(), kv as int, 0),
            *cumulative == (threat_rank(pos) % 65536) as u16,
            data@.len() == table_size(),
            forall|idx: int| 0 <= idx < table_size() ==> #[trigger] data@[idx] == table_expect(idx, pos),
        decreases 14 - kv,
    {
        let attacked = pieces[kv];
        proof {
            lemma_feature_order(kv as int);
        }
        if valid_pair_exec(attacker.index(), attacked.index()) {
            let targets = attacks.and(valid_bb[attacked.index()]);
            number_victim(data, cumulative, ka, from, kv, attacker, attacked, targets, Ghost(pos));
        } else {
            proof {
                let a = pos;
                let b = threat_pos(ka as int, from.id(), kv as int + 1, 0);
                assert forall|p: int| a <= p < b implies !#[trigger] included_at(p) by {
                    lemma_pos_decode(ka as int, from.id(), kv as int, p - a);
                }
                lemma_skip_all(a, b);
            }
        }
        proof {
            pos = threat_pos(ka as int, from.id(), kv as int + 1, 0);
        }
        kv = kv + 1;
    }
}

/// The feature offsets of all threats (see `threat_offset`).
pub struct ThreatOffsetTable {
    data: Vec<u16>,
}

impl ThreatOffsetTable {
    /// Every entry holds the offset of its threat.
    pub closed spec fn wf(&self) -> bool {
        &&& self.data@.len() == table_size()
        &&& forall|idx: int| 0 <= idx < table_size() ==> #[trigger] self.data@[idx] == table_expect(idx, threat_places())
    }

    /// Numbers the threats with a feature in order: by attacker, its
    /// square, victim and the victim's square.
    #[verifier::spinoff_prover]
    pub fn new() -> (t: ThreatOffsetTable)
        ensures
            t.wf(),
    {
        let pseudo = pseudo_attacks();
        let valid_bb = compute_valid_bb();
        let pieces = all_pieces();
        let mut data: Vec<u16> = Vec::new();
        while data.len() < 2073600
            invariant
                data@.len() <= 2073600,
                forall|i: int| 0 <= i < data@.len() ==> #[trigger] data@[i] == DIMENSIONS as u16,
            decreases 2073600 - data@.len(),
        {
            data.push(45547u16);
        }
        proof {
            assert forall|idx: int| 0 <= idx < table_size() implies #[trigger] data@[idx] == table_expect(idx, 0) by {
                lemma_flat_encode(idx);
                let q1 = idx / 16;
                let q2 = q1 / 90;
                let aid = q2 / 90;
                let vid = idx % 16;
                if piece_id_ok(aid) && piece_id_ok(vid) {
                    lemma_piece_ids(aid);
                    lemma_piece_ids(vid);
                    lemma_pos_decode(
                        feature_index(piece_of_id(aid)),
                        q2 % 90,
                        feature_index(piece_of_id(vid)),
                        q1 % 90,
                    );
                }
            }
        }
        let mut cumulative: u16 = 0;
        let ghost mut cur: int = 0;
        let mut ka: usize = 0;
        while ka < 14
            invariant
                ka <= 14,
                pseudo.wf(),
                pieces@ == feature_pieces(),
                forall|pc: Piece, t: int| pc != Piece::NONE ==> #[trigger] valid_bb[pc.id()].has(t) == valid_sq(pc, t),
                forall|i: int| 0 <= i < 16 ==> #[trigger] valid_bb[i].wf(),
                cur == threat_pos(ka as int, 0, 0, 0),
                cumulative == (threat_rank(cur) % 65536) as u16,
                data@.len() == table_size(),
                forall|idx: int| 0 <= idx < table_size() ==> #[trigger] data@[idx] == table_expect(idx, cur),
            decreases 14 - ka,
        {
            let attacker = pieces[ka];
            proof {
                lemma_feature_order(ka as int);
            }
            let pt = attacker.piece_type();
            let attacker_color = attacker.color();
            let mut from_idx: usize = 0;
            while from_idx < 90
                invariant
                    ka < 14,
                    from_idx <= 90,
                    pseudo.wf(),
                    pieces@ == feature_pieces(),
                    attacker == feature_pieces()[ka as int],
                    pt == attacker.type_of(),
                    attacker_color == attacker.color_of(),
                    forall|pc: Piece, t: int| pc != Piece::NONE ==> #[trigger] valid_bb[pc.id()].has(t) == valid_sq(pc, t),
                    forall|i: int| 0 <= i < 16 ==> #[trigger] valid_bb[i].wf(),
                    cur == threat_pos(ka as int, from_idx as int, 0, 0),
                    cumulative == (threat_rank(cur) % 65536) as u16,
                    data@.len() == table_size(),
                    forall|idx: int| 0 <= idx < table_size() ==> #[trigger] data@[idx] == table_expect(idx, cur),
                decreases 90 - from_idx,
            {
                let from = Square::from_raw_unchecked(from_idx as u8);
                if valid_bb[attacker.index()].contains(from) {
                    let attacks = if pt == PieceType::Pawn {
                        pawn_attacks_bb(attacker_color, from)
                    } else if pt == PieceType::Cannon {
                        let ring = pseudo.unconstrained_king(from);
                        proof {
                            assert(ring.wf() && forall|t: int| #[trigger] ring.has(t) == king_step(from.id(), t));
                            let b = king_ring(from.id());
                            assert(b.wf() && forall|t: int| #[trigger] b.has(t) == king_step(from.id(), t));
                            assert forall|i: int| #[trigger] crate::bitboard::bitboard::bit(b.0, i) == crate::bitboard::bitboard::bit(ring.0, i) by {
                                assert(b.has(i) == ring.has(i));
                            }
                            crate::bitboard::bitboard::lemma_bits_ext(b.0, ring.0);
                            assert(b == ring);
                        }
                        attacks_bb_cannon(from, ring)
                    } else {
                        pseudo.get(pt, from)
                    };
                    number_square(&mut data, &mut cumulative, ka, from, attacker, attacks, &valid_bb, &pieces, Ghost(cur));
                } else {
                    proof {
                        let a = cur;
                        let b = threat_pos(ka as int, from_idx as int + 1, 0, 0);
                        assert forall|p: int| a <= p < b implies !#[trigger] included_at(p) by {
                            let r = p - a;
                            vstd::arithmetic::div_mod::lemma_fundamental_div_mod(r, 90);
                            vstd::arithmetic::div_mod::lemma_mod_bound(r, 90);
                            assert(0 <= r / 90 < 14) by {
                                vstd::arithmetic::div_mod::lemma_div_pos_is_pos(r, 90);
                                vstd::arithmetic::div_mod::lemma_div_by_multiple_is_strongly_ordered(r, 1260, 14, 90);
                            }
                            lemma_pos_decode(ka as int, from_idx as int, r / 90, r % 90);
                        }
                        lemma_skip_all(a, b);
                    }
                }
                proof {
                    cur = threat_pos(ka as int, from_idx as int + 1, 0, 0);
                }
                from_idx = from_idx + 1;
            }
            ka = ka + 1;
        }
        ThreatOffsetTable { data }
    }

    /// The feature offset of `attacker` on `from` threatening `victim` on
    /// `to` (see `threat_offset`).
    #[verifier::spinoff_prover]
    #[verifier::rlimit(30)]
    pub fn get(&self, attacker: Piece, from: Square, to: Square, victim: Piece) -> (r: u16)
        requires
            self.wf(),
            from.valid(),
            to.valid(),
        ensures
            r == threat_offset(attacker.id(), from.id(), to.id(), victim.id()),
    {
        let idx = ((attacker.index() * 90 + from.index()) * 90 + to.index()) * 16 + victim.index();
        proof {
            lemma_flat_decode(attacker.id(), from.id(), to.id(), victim.id());
            let aid = attacker.id();
            let vid = victim.id();
            if piece_id_ok(aid) && piece_id_ok(vid) {
                lemma_piece_ids(aid);
                lemma_piece_ids(vid);
                lemma_pos_decode(
                    feature_index(piece_of_id(aid)),
                    from.id(),
                    feature_index(piece_of_id(vid)),
                    to.id(),
                );
            }
        }
        self.data[idx]
    }
}

/// The piece as black sees it (colors swapped) when `black`; `NONE` stays
/// `NONE`.
pub open spec fn view_piece(pc: Piece, black: bool) -> Piece {
    if black && pc != Piece::NONE {
        flip_piece(pc)
    } else {
        pc
    }
}

/// The feature index, for `perspective`, of `attacker` on `from`
/// threatening `victim` on `to`: both squares mapped (see
/// `index_map_spec`), both pieces seen from black's side for black.
pub open spec fn threat_index(
    perspective: Color,
    attacker: Piece,
    from: int,
    to: int,
    victim: Piece,
    mirror: bool,
) -> int {
    let black = perspective == Color::Black;
    threat_offset(
        view_piece(attacker, black).id(),
        index_map_spec(mirror, black, from),
        index_map_spec(mirror, black, to),
        view_piece(victim, black).id(),
    ) as int
}

/// The feature index of a threat (see `threat_index`).
pub fn make_index(
    perspective: Color,
    attacker: Piece,
    from: Square,
    to: Square,
    victim: Piece,
    mirror: bool,
    offsets: &ThreatOffsetTable,
) -> (r: u32)
    requires
        offsets.wf(),
        from.valid(),
        to.valid(),
    ensures
        r == threat_index(perspective, attacker, from.id(), to.id(), victim, mirror),
{
    let black = perspective == Color::Black;
    let mapped_from = index_map(mirror, black, from);
    let mapped_to = index_map(mirror, black, to);
    let mapped_attacker = if black && attacker != Piece::NONE {
        attacker.flip_color()
    } else {
        attacker
    };
    let mapped_victim = if black && victim != Piece::NONE {
        victim.flip_color()
    } else {
        victim
    };
    offsets.get(
        mapped_attacker,
        Square::from_raw_unchecked(mapped_from),
        Square::from_raw_unchecked(mapped_to),
        mapped_victim,
    ) as u32
}

/// The recorded threats name board squares.
pub open spec fn dirty_ok(d: &DirtyThreats) -> bool {
    &&& d.count <= 64
    &&& forall|i: int|
        0 <= i < d.count ==> #[trigger] d.threats[i].attacker_sq() < 90 && d.threats[i].victim_sq() < 90
}

/// The feature index of a recorded threat for `perspective`.
pub open spec fn dirty_index(perspective: Color, mirror: bool, t: DirtyThreat) -> int {
    threat_index(
        perspective,
        piece_from_raw(t.attacker_id()),
        t.attacker_sq(),
        t.victim_sq(),
        piece_from_raw(t.victim_id()),
        mirror,
    )
}

/// The feature indices (below `DIMENSIONS`) of the threats of `ts` that
/// were added, or with `added` false, removed.
pub open spec fn dirty_indices(perspective: Color, mirror: bool, ts: Seq<DirtyThreat>, added: bool) -> Seq<u32>
    decreases ts.len(),
{
    if ts.len() == 0 {
        Seq::empty()
    } else {
        let prev = dirty_indices(perspective, mirror, ts.drop_last(), added);
        let t = ts.last();
        let idx = dirty_index(perspective, mirror, t);
        if t.added() == added && idx < DIMENSIONS {
            prev.push(idx as u32)
        } else {
            prev
        }
    }
}

proof fn lemma_dirty_indices_len(perspective: Color, mirror: bool, ts: Seq<DirtyThreat>, added: bool)
    ensures
        dirty_indices(perspective, mirror, ts, added).len() <= ts.len(),
    decreases ts.len(),
{
    if ts.len() > 0 {
        lemma_dirty_indices_len(perspective, mirror, ts.drop_last(), added);
    }
}

/// Appends the feature indices of the recorded threats: those added to
/// `added`, those removed to `removed`, leaving out indices of threats
/// without a feature.
pub fn append_changed_indices(
    perspective: Color,
    mirror: bool,
    dirty: &DirtyThreats,
    removed: &mut IndexList,
    added: &mut IndexList,
)
    requires
        dirty_ok(dirty),
        old(removed).wf(),
        old(added).wf(),
        old(removed)@.len() + dirty.count <= MAX_ACTIVE,
        old(added)@.len() + dirty.count <= MAX_ACTIVE,
    ensures
        final(removed).wf(),
        final(added).wf(),
        final(removed)@ == old(removed)@ + dirty_indices(perspective, mirror, dirty.recorded(), false),
        final(added)@ == old(added)@ + dirty_indices(perspective, mirror, dirty.recorded(), true),
{
    let offsets = ThreatOffsetTable::new();
    let ts = dirty.as_slice();
    let mut i: usize = 0;
    proof {
        assert(ts@.subrange(0, 0) =~= Seq::<DirtyThreat>::empty());
        assert(removed@ =~= old(removed)@ + dirty_indices(perspective, mirror, ts@.subrange(0, 0), false));
        assert(added@ =~= old(added)@ + dirty_indices(perspective, mirror, ts@.subrange(0, 0), true));
    }
    while i < ts.len()
        invariant
            i <= ts@.len(),
            ts@ == dirty.recorded(),
            dirty_ok(dirty),
            offsets.wf(),
            removed.wf(),
            added.wf(),
            old(removed)@.len() + dirty.count <= MAX_ACTIVE,
            old(added)@.len() + dirty.count <= MAX_ACTIVE,
            removed@ == old(removed)@ + dirty_indices(perspective, mirror, ts@.subrange(0, i as int), false),
            added@ == old(added)@ + dirty_indices(perspective, mirror, ts@.subrange(0, i as int), true),
        decreases ts@.len() - i,
    {
        let dt = ts[i];
        proof {
            assert(dt == dirty.threats[i as int]);
            assert(dirty.threats[i as int].attacker_sq() < 90 && dirty.threats[i as int].victim_sq() < 90);
            let pre = ts@.subrange(0, i as int + 1);
            assert(pre.drop_last() =~= ts@.subrange(0, i as int));
            lemma_dirty_indices_len(perspective, mirror, ts@.subrange(0, i as int), false);
            lemma_dirty_indices_len(perspective, mirror, ts@.subrange(0, i as int), true);
        }
        let attacker = Piece::from_raw(dt.pc_raw());
        let victim = Piece::from_raw(dt.threatened_pc_raw());
        let from = Square::from_raw_unchecked(dt.pc_sq_raw());
        let to = Square::from_raw_unchecked(dt.threatened_sq_raw());
        let index = make_index(perspective, attacker, from, to, victim, mirror, &offsets);
        if dt.is_add() {
            added.push_if_lt(index, DIMENSIONS);
        } else {
            removed.push_if_lt(index, DIMENSIONS);
        }
        proof {
            let pre = ts@.subrange(0, i as int + 1);
            assert(removed@ =~= old(removed)@ + dirty_indices(perspective, mirror, pre, false));
            assert(added@ =~= old(added)@ + dirty_indices(perspective, mirror, pre, true));
        }
        i = i + 1;
    }
    proof {
        assert(ts@.subrange(0, ts@.len() as int) =~= ts@);
    }
}

/// `pc` on `from` attacks `to` on the occupancy `occ`: a pawn by its
/// attacks, rooks, cannons, knights and bishops as the occupancy lets them,
/// kings and advisors within the palace.
pub open spec fn threat_attacks(pc: Piece, from: int, occ: Bitboard, to: int) -> bool {
    match pc.type_of() {
        PieceType::Pawn => pawn_attack_has(pc.color_of(), from, to),
        PieceType::Rook => rook_attack_has(from, occ, to),
        PieceType::Cannon => cannon_attack_has(from, occ, to),
        PieceType::Knight => knight_attack_has(from, occ, to),
        PieceType::Bishop => bishop_attack_has(from, occ, to),
        PieceType::King => pseudo_attack_has(7, from, to),
        PieceType::Advisor => pseudo_attack_has(2, from, to),
    }
}

/// The feature indices (below `DIMENSIONS`) of the threats of the piece on
/// `from` against pieces on the first `n` squares, in square order.
pub open spec fn threats_from(pos: &Position, perspective: Color, mirror: bool, from: int, n: int) -> Seq<u32>
    decreases n,
{
    if n <= 0 {
        Seq::empty()
    } else {
        let prev = threats_from(pos, perspective, mirror, from, n - 1);
        let to = n - 1;
        if pos.board[from] != Piece::NONE && pos.board[to] != Piece::NONE && threat_attacks(
            pos.board[from],
            from,
            pos.occ(),
            to,
        ) && threat_index(perspective, pos.board[from], from, to, pos.board[to], mirror)
            < DIMENSIONS {
            prev.push(threat_index(perspective, pos.board[from], from, to, pos.board[to], mirror) as u32)
        } else {
            prev
        }
    }
}

/// The threat feature indices of the pieces on the first `n` squares.
pub open spec fn threat_active(pos: &Position, perspective: Color, mirror: bool, n: int) -> Seq<u32>
    decreases n,
{
    if n <= 0 {
        Seq::empty()
    } else {
        threat_active(pos, perspective, mirror, n - 1) + threats_from(pos, perspective, mirror, n - 1, 90)
    }
}

proof fn lemma_threats_from_mono(pos: &Position, perspective: Color, mirror: bool, from: int, a: int, b: int)
    requires
        0 <= a <= b,
    ensures
        threats_from(pos, perspective, mirror, from, a).len() <= threats_from(pos, perspective, mirror, from, b).len(),
    decreases b - a,
{
    if a < b {
        lemma_threats_from_mono(pos, perspective, mirror, from, a, b - 1);
    }
}

proof fn lemma_threat_active_mono(pos: &Position, perspective: Color, mirror: bool, a: int, b: int)
    requires
        0 <= a <= b,
    ensures
        threat_active(pos, perspective, mirror, a).len() <= threat_active(pos, perspective, mirror, b).len(),
    decreases b - a,
{
    if a < b {
        lemma_threat_active_mono(pos, perspective, mirror, a, b - 1);
    }
}

proof fn lemma_threats_from_skip(pos: &Position, perspective: Color, mirror: bool, from: int, a: int, b: int)
    requires
        0 <= a <= b,
        forall|t: int| a <= t < b ==> !(pos.board[from] != Piece::NONE && pos.board[t] != Piece::NONE
            && #[trigger] threat_attacks(pos.board[from], from, pos.occ(), t)),
    ensures
        threats_from(pos, perspective, mirror, from, b) == threats_from(pos, perspective, mirror, from, a),
    decreases b - a,
{
    if a < b {
        assert(!(pos.board[from] != Piece::NONE && pos.board[b - 1] != Piece::NONE && threat_attacks(
            pos.board[from],
            from,
            pos.occ(),
            b - 1,
        )));
        lemma_threats_from_skip(pos, perspective, mirror, from, a, b - 1);
    }
}

proof fn lemma_threat_active_skip(pos: &Position, perspective: Color, mirror: bool, a: int, b: int)
    requires
        0 <= a <= b,
        forall|t: int| a <= t < b ==> #[trigger] pos.board[t] == Piece::NONE,
    ensures
        threat_active(pos, perspective, mirror, b) == threat_active(pos, perspective, mirror, a),
    decreases b - a,
{
    if a < b {
        assert(pos.board[b - 1] == Piece::NONE);
        lemma_threats_from_skip(pos, perspective, mirror, b - 1, 0, 90);
        assert(threats_from(pos, perspective, mirror, b - 1, 0) =~= Seq::<u32>::empty());
        assert(threat_active(pos, perspective, mirror, b) =~= threat_active(pos, perspective, mirror, b - 1));
        lemma_threat_active_skip(pos, perspective, mirror, a, b - 1);
    }
}

fn attacks_bb_with_occ(pseudo: &PseudoAttacksTable, pt: PieceType, sq: Square, occupied: Bitboard) -> (b: Bitboard)
    requires
        pseudo.wf(),
        sq.valid(),
        pt != PieceType::Pawn,
    ensures
        b.wf(),
        forall|t: int| #[trigger] b.has(t) == threat_attacks(make_piece(Color::White, pt), sq.id(), occupied, t),
{
    match pt {
        PieceType::Rook => attacks_bb_rook(sq, occupied),
        PieceType::Cannon => attacks_bb_cannon(sq, occupied),
        PieceType::Knight => attacks_bb_knight(sq, occupied),
        PieceType::Bishop => attacks_bb_bishop(sq, occupied),
        PieceType::King => pseudo.get(PieceType::King, sq),
        PieceType::Advisor => pseudo.get(PieceType::Advisor, sq),
        PieceType::Pawn => Bitboard::empty(),
    }
}

/// Appends the feature indices of the threats of `src_piece` on `from`,
/// whose attacked squares are `attacks`, against the pieces on the board.
#[verifier::spinoff_prover]
fn append_piece_threats(
    pos: &Position,
    perspective: Color,
    mirror: bool,
    from: Square,
    src_piece: Piece,
    attacks: Bitboard,
    occupied: Bitboard,
    offsets: &ThreatOffsetTable,
    active: &mut IndexList,
)
    requires
        pos.valid(),
        old(active).wf(),
        offsets.wf(),
        from.valid(),
        src_piece == pos.board[from.id()],
        src_piece != Piece::NONE,
        occupied == pos.occ(),
        occupied.wf(),
        forall|t: int| #[trigger] attacks.has(t) == threat_attacks(src_piece, from.id(), occupied, t),
        forall|t: int| 0 <= t < 90 ==> (#[trigger] occupied.has(t) == (pos.board[t] != Piece::NONE)),
        old(active)@.len() + threats_from(pos, perspective, mirror, from.id(), 90).len() <= MAX_ACTIVE,
    ensures
        final(active).wf(),
        final(active)@ == old(active)@ + threats_from(pos, perspective, mirror, from.id(), 90),
{
    let mut attack_bb = attacks.and(occupied);
    let ghost mut next_to: int = 0;
    let ghost base = active@;
    proof {
        assert(active@ =~= base + threats_from(pos, perspective, mirror, from.id(), 0));
    }
    while attack_bb.is_not_empty()
        invariant
            pos.valid(),
            active.wf(),
            offsets.wf(),
            attack_bb.wf(),
            from.valid(),
            src_piece == pos.board[from.id()],
            src_piece != Piece::NONE,
            occupied == pos.occ(),
            occupied.wf(),
            0 <= next_to <= 90,
            forall|t: int| #[trigger] attacks.has(t) == threat_attacks(src_piece, from.id(), occupied, t),
            forall|t: int| #[trigger] attack_bb.has(t) == (attacks.has(t) && occupied.has(t) && t >= next_to),
            forall|t: int| 0 <= t < 90 ==> (#[trigger] occupied.has(t) == (pos.board[t] != Piece::NONE)),
            base.len() + threats_from(pos, perspective, mirror, from.id(), 90).len() <= MAX_ACTIVE,
            active@ == base + threats_from(pos, perspective, mirror, from.id(), next_to),
        decreases attack_bb@.len(),
    {
        let ghost prev_ab = attack_bb;
        let to = attack_bb.pop_lsb();
        proof {
            assert forall|t: int| next_to <= t < to.id() implies !(pos.board[from.id()] != Piece::NONE
                && pos.board[t] != Piece::NONE && #[trigger] threat_attacks(pos.board[from.id()], from.id(), pos.occ(), t)) by {
                if 0 <= t < 90 && pos.board[t] != Piece::NONE && threat_attacks(pos.board[from.id()], from.id(), pos.occ(), t) {
                    assert(prev_ab.has(t));
                }
            }
            lemma_threats_from_skip(pos, perspective, mirror, from.id(), next_to, to.id());
            lemma_threats_from_mono(pos, perspective, mirror, from.id(), to.id() + 1, 90);
        }
        let victim = pos.piece_on(to);
        let index = make_index(perspective, src_piece, from, to, victim, mirror, offsets);
        active.push_if_lt(index, DIMENSIONS);
        proof {
            next_to = to.id() + 1;
            assert(active@ =~= base + threats_from(pos, perspective, mirror, from.id(), next_to));
        }
    }
    proof {
        assert forall|t: int| next_to <= t < 90 implies !(pos.board[from.id()] != Piece::NONE
            && pos.board[t] != Piece::NONE && #[trigger] threat_attacks(pos.board[from.id()], from.id(), pos.occ(), t)) by {
            if pos.board[t] != Piece::NONE && threat_attacks(pos.board[from.id()], from.id(), pos.occ(), t) {
                assert(attack_bb.has(t));
                attack_bb.lemma_empty_iff();
            }
        }
        lemma_threats_from_skip(pos, perspective, mirror, from.id(), next_to, 90);
    }
}

/// Appends the feature index of every threat between pieces on the board
/// (the attacker's square first, then the victim's, in order), leaving out
/// threats without a feature.
pub fn append_active_indices(pos: &Position, perspective: Color, active: &mut IndexList)
    requires
        pos.valid(),
        old(active).wf(),
        old(active)@.len() + threat_active(pos, perspective, feature_bucket_spec(perspective, pos).1, 90).len() <= MAX_ACTIVE,
    ensures
        final(active).wf(),
        final(active)@ == old(active)@ + threat_active(pos, perspective, feature_bucket_spec(perspective, pos).1, 90),
{
    let (_, mirror, _) = make_feature_bucket(perspective, pos);
    let offsets = ThreatOffsetTable::new();
    let pseudo = pseudo_attacks();
    let occupied = pos.all_pieces();
    let mut bb = occupied;
    let ghost mut next: int = 0;
    proof {
        assert(active@ =~= old(active)@ + threat_active(pos, perspective, mirror, 0));
    }
    while bb.is_not_empty()
        invariant
            pos.valid(),
            active.wf(),
            offsets.wf(),
            pseudo.wf(),
            bb.wf(),
            occupied == pos.occ(),
            occupied.wf(),
            0 <= next <= 90,
            mirror == feature_bucket_spec(perspective, pos).1,
            forall|t: int| #[trigger] bb.has(t) == (occupied.has(t) && t >= next),
            forall|t: int| 0 <= t < 90 ==> (#[trigger] occupied.has(t) == (pos.board[t] != Piece::NONE)),
            old(active)@.len() + threat_active(pos, perspective, mirror, 90).len() <= MAX_ACTIVE,
            active@ == old(active)@ + threat_active(pos, perspective, mirror, next),
        decreases bb@.len(),
    {
        let ghost prev_bb = bb;
        let from = bb.pop_lsb();
        proof {
            assert forall|t: int| next <= t < from.id() implies #[trigger] pos.board[t] == Piece::NONE by {
                if pos.board[t] != Piece::NONE {
                    assert(prev_bb.has(t));
                }
            }
            lemma_threat_active_skip(pos, perspective, mirror, next, from.id());
            lemma_threat_active_mono(pos, perspective, mirror, from.id() + 1, 90);
            next = from.id();
        }
        let src_piece = pos.piece_on(from);
        let pt = src_piece.piece_type();
        let c = src_piece.color();
        let attacks = if pt == PieceType::Pawn {
            pawn_attacks_bb(c, from)
        } else {
            attacks_bb_with_occ(&pseudo, pt, from, occupied)
        };
        proof {
            assert(forall|t: int| #[trigger] attacks.has(t) == threat_attacks(src_piece, from.id(), occupied, t));
        }
        append_piece_threats(pos, perspective, mirror, from, src_piece, attacks, occupied, &offsets, active);
        proof {
            next = from.id() + 1;
            assert(active@ =~= old(active)@ + threat_active(pos, perspective, mirror, next));
        }
    }
    proof {
        assert forall|t: int| next <= t < 90 implies #[trigger] pos.board[t] == Piece::NONE by {
            if pos.board[t] != Piece::NONE {
                assert(bb.has(t));
                bb.lemma_empty_iff();
            }
        }
        lemma_threat_active_skip(pos, perspective, mirror, next, 90);
    }
}

} // verus!
