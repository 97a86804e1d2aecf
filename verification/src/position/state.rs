//! Per-ply state and the repetition Bloom filter.

use vstd::prelude::*;

use crate::bitboard::Bitboard;
use crate::types::{Key, Move, Piece, Value};

verus! {

pub const BLOOM_FILTER_SIZE: usize = 16384;

/// Slot of `key` in the filter: its low 14 bits.
pub open spec fn bloom_slot(key: u64) -> int {
    (key % 16384) as int
}

/// The table after counting `key` once more (the counter wraps at 256).
pub open spec fn bloom_inserted(t: Seq<u8>, key: u64) -> Seq<u8> {
    t.update(bloom_slot(key), ((t[bloom_slot(key)] + 1) % 256) as u8)
}

/// The table after counting `key` once less (the counter wraps at 0).
pub open spec fn bloom_removed(t: Seq<u8>, key: u64) -> Seq<u8> {
    t.update(bloom_slot(key), ((t[bloom_slot(key)] + 255) % 256) as u8)
}

/// Counts of position keys seen, by the low 14 bits of the key.
pub struct BloomFilter {
    pub table: Vec<u8>,
}

impl BloomFilter {
    pub open spec fn wf(&self) -> bool {
        self.table.len() == BLOOM_FILTER_SIZE
    }

    pub fn new() -> (f: Self)
        ensures
            f.wf(),
            forall|i: int| 0 <= i < BLOOM_FILTER_SIZE ==> #[trigger] f.table@[i] == 0,
    {
        let mut table: Vec<u8> = Vec::new();
        let mut i: usize = 0;
        while i < BLOOM_FILTER_SIZE
            invariant
                i <= BLOOM_FILTER_SIZE,
                table.len() == i,
                forall|j: int| 0 <= j < i ==> #[trigger] table@[j] == 0,
            decreases BLOOM_FILTER_SIZE - i,
        {
            table.push(0);
            i = i + 1;
        }
        BloomFilter { table }
    }

    pub fn insert(&mut self, key: Key)
        requires
            old(self).wf(),
        ensures
            final(self).wf(),
            final(self).table@ == bloom_inserted(old(self).table@, key),
    {
        let i = (key % 16384) as usize;
        let v = self.table[i];
        self.table.set(i, v.wrapping_add(1));
    }

    pub fn remove(&mut self, key: Key)
        requires
            old(self).wf(),
        ensures
            final(self).wf(),
            final(self).table@ == bloom_removed(old(self).table@, key),
    {
        let i = (key % 16384) as usize;
        let v = self.table[i];
        self.table.set(i, v.wrapping_sub(1));
    }

    pub fn count(&self, key: Key) -> (n: u8)
        requires
            self.wf(),
        ensures
            n == self.table@[bloom_slot(key)],
    {
        self.table[(key % 16384) as usize]
    }
}

/// Removing a key right after inserting it leaves the filter as it was.
pub proof fn lemma_bloom_insert_remove(t: Seq<u8>, key: u64)
    requires
        t.len() == BLOOM_FILTER_SIZE,
    ensures
        bloom_removed(bloom_inserted(t, key), key) == t,
{
    assert(bloom_removed(bloom_inserted(t, key), key) =~= t);
}

/// Inserting a key right after removing it leaves the filter as it was.
pub proof fn lemma_bloom_remove_insert(t: Seq<u8>, key: u64)
    requires
        t.len() == BLOOM_FILTER_SIZE,
    ensures
        bloom_inserted(bloom_removed(t, key), key) == t,
{
    assert(bloom_inserted(bloom_removed(t, key), key) =~= t);
}

/// The state a move changes and undoing it restores.
#[derive(Clone, Copy)]
pub struct StateInfo {
    pub pawn_key: Key,
    pub minor_piece_key: Key,
    pub non_pawn_key: [Key; 2],
    pub major_material: [Value; 2],
    pub check10: [i16; 2],
    pub rule60: i32,
    pub plies_from_null: i32,
    pub key: Key,
    pub checkers_bb: Bitboard,
    pub blockers_for_king: [Bitboard; 2],
    pub pinners: [Bitboard; 2],
    pub check_squares: [Bitboard; 8],
    pub need_full_check: bool,
    pub captured_piece: Piece,
    pub last_move: Move,
}

impl StateInfo {
    pub fn new() -> (s: Self)
        ensures
            s.pawn_key == 0,
            s.minor_piece_key == 0,
            s.non_pawn_key@ == seq![0u64, 0u64],
            s.major_material@ == seq![0i32, 0i32],
            s.check10@ == seq![0i16, 0i16],
            s.rule60 == 0,
            s.plies_from_null == 0,
            s.key == 0,
            s.checkers_bb.0 == 0,
            s.need_full_check == false,
            s.captured_piece == Piece::NONE,
            s.last_move.0 == 0,
    {
        let e = Bitboard::empty();
        StateInfo {
            pawn_key: 0,
            minor_piece_key: 0,
            non_pawn_key: [0, 0],
            major_material: [0, 0],
            check10: [0, 0],
            rule60: 0,
            plies_from_null: 0,
            key: 0,
            checkers_bb: e,
            blockers_for_king: [e, e],
            pinners: [e, e],
            check_squares: [e, e, e, e, e, e, e, e],
            need_full_check: false,
            captured_piece: Piece::NONE,
            last_move: Move::none(),
        }
    }

    /// Carries over the counters and keys that a move updates incrementally.
    pub fn copy_from_previous(&mut self, prev: &Self)
        ensures
            final(self).pawn_key == prev.pawn_key,
            final(self).minor_piece_key == prev.minor_piece_key,
            final(self).non_pawn_key == prev.non_pawn_key,
            final(self).major_material == prev.major_material,
            final(self).check10 == prev.check10,
            final(self).rule60 == prev.rule60,
            final(self).plies_from_null == prev.plies_from_null,
            final(self).key == old(self).key,
            final(self).checkers_bb == old(self).checkers_bb,
            final(self).blockers_for_king == old(self).blockers_for_king,
            final(self).pinners == old(self).pinners,
            final(self).check_squares == old(self).check_squares,
            final(self).need_full_check == old(self).need_full_check,
            final(self).captured_piece == old(self).captured_piece,
            final(self).last_move == old(self).last_move,
    {
        self.pawn_key = prev.pawn_key;
        self.minor_piece_key = prev.minor_piece_key;
        self.non_pawn_key = prev.non_pawn_key;
        self.major_material = prev.major_material;
        self.check10 = prev.check10;
        self.rule60 = prev.rule60;
        self.plies_from_null = prev.plies_from_null;
    }
}

} // verus!
