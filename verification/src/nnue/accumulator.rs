//! Accumulators of the feature transformer and the stack that follows the
//! search.

use vstd::prelude::*;

use crate::types::{Piece, Square};

verus! {

/// Width of an accumulator.
pub const TRANSFORMED_DIMS: usize = 1024;

/// Buckets of the piece-square term.
pub const PSQT_BUCKETS: usize = 16;

/// The first-layer sums for both perspectives.
#[derive(Clone, Copy)]
pub struct Accumulator {
    pub accumulation: [[i16; 1024]; 2],
    pub psqt_accumulation: [[i32; 16]; 2],
    pub computed: [bool; 2],
}

/// The accumulator is all zero and computed for neither side.
pub open spec fn is_cleared(a: Accumulator) -> bool {
    &&& forall|p: int, i: int| 0 <= p < 2 && 0 <= i < 1024 ==> #[trigger] a.accumulation[p][i] == 0
    &&& forall|p: int, i: int| 0 <= p < 2 && 0 <= i < 16 ==> #[trigger] a.psqt_accumulation[p][i] == 0
    &&& a.computed@ == seq![false, false]
}

impl Accumulator {
    pub fn new() -> (a: Accumulator)
        ensures
            is_cleared(a),
    {
        let a = Accumulator {
            accumulation: [[0i16; 1024], [0i16; 1024]],
            psqt_accumulation: [[0i32; 16], [0i32; 16]],
            computed: [false, false],
        };
        proof {
            assert forall|p: int, i: int| 0 <= p < 2 && 0 <= i < 1024 implies #[trigger] a.accumulation[p][i] == 0 by {
                if p == 0 {
                    assert(a.accumulation[0][i] == 0);
                } else {
                    assert(a.accumulation[1][i] == 0);
                }
            }
            assert forall|p: int, i: int| 0 <= p < 2 && 0 <= i < 16 implies #[trigger] a.psqt_accumulation[p][i] == 0 by {
                if p == 0 {
                    assert(a.psqt_accumulation[0][i] == 0);
                } else {
                    assert(a.psqt_accumulation[1][i] == 0);
                }
            }
        }
        a
    }

    /// Clears the sums and marks them not computed.
    pub fn reset(&mut self)
        ensures
            is_cleared(*final(self)),
    {
        *self = Accumulator::new();
    }
}

/// Most pieces a move changes.
pub const MAX_DIRTY_PIECES: usize = 3;

/// The pieces a move changed, for the piece-square features.
#[derive(Clone, Copy)]
pub struct DirtyPiece {
    pub dirty_num: usize,
    pub pc: [Piece; 3],
    pub from: [Square; 3],
    pub to: [Square; 3],
    pub requires_refresh: [bool; 2],
}

impl DirtyPiece {
    /// The first entry describes a moved piece, from a square to a square
    /// or to `NONE`, and a second entry (a capture) names a square or
    /// `NONE`, with a piece when it names a square.
    pub open spec fn changes_ok(&self) -> bool {
        &&& self.from[0].valid()
        &&& self.to[0].id() <= 90
        &&& self.pc[0] != Piece::NONE
        &&& self.dirty_num > 1 ==> self.from[1].id() <= 90 && (self.from[1] != Square::NONE
            ==> self.pc[1] != Piece::NONE)
    }

    pub fn new() -> (d: DirtyPiece)
        ensures
            d.dirty_num == 0,
            d.pc@ == seq![Piece::NONE, Piece::NONE, Piece::NONE],
            d.from@ == seq![Square::NONE, Square::NONE, Square::NONE],
            d.to@ == seq![Square::NONE, Square::NONE, Square::NONE],
            d.requires_refresh@ == seq![false, false],
    {
        DirtyPiece {
            dirty_num: 0,
            pc: [Piece::NONE, Piece::NONE, Piece::NONE],
            from: [Square::NONE, Square::NONE, Square::NONE],
            to: [Square::NONE, Square::NONE, Square::NONE],
            requires_refresh: [false, false],
        }
    }
}

/// Most threat changes recorded for one move.
pub const MAX_DIRTY_THREATS: usize = 64;

/// The fields of a packed threat fit their bytes.
proof fn lemma_fields_fit(x: u32)
    by (bit_vector)
    ensures
        (x >> 20u32) & 0xf <= 0xf,
        (x >> 16u32) & 0xf <= 0xf,
        (x >> 8u32) & 0xff <= 0xff,
        x & 0xff <= 0xff,
{
}

/// One threat that appeared or disappeared, packed in 32 bits: bit 31 set
/// for an added threat, then the attacking piece (bits 20 to 23), the
/// threatened piece (16 to 19), the threatened square (8 to 15) and the
/// attacker's square (0 to 7).
#[derive(Clone, Copy)]
pub struct DirtyThreat(pub u32);

/// Packing a threat and reading its fields back give the fields.
proof fn lemma_pack_fields(add: bool, pc: u32, tpc: u32, tsq: u32, psq: u32)
    by (bit_vector)
    requires
        pc < 16,
        tpc < 16,
        tsq < 256,
        psq < 256,
    ensures
        ((((if add { 1u32 } else { 0u32 }) << 31u32) | (pc << 20u32) | (tpc << 16u32) | (tsq << 8u32) | psq) >> 31u32 != 0) == add,
        ((((if add { 1u32 } else { 0u32 }) << 31u32) | (pc << 20u32) | (tpc << 16u32) | (tsq << 8u32) | psq) >> 20u32) & 0xf == pc,
        ((((if add { 1u32 } else { 0u32 }) << 31u32) | (pc << 20u32) | (tpc << 16u32) | (tsq << 8u32) | psq) >> 16u32) & 0xf == tpc,
        ((((if add { 1u32 } else { 0u32 }) << 31u32) | (pc << 20u32) | (tpc << 16u32) | (tsq << 8u32) | psq) >> 8u32) & 0xff == tsq,
        (((if add { 1u32 } else { 0u32 }) << 31u32) | (pc << 20u32) | (tpc << 16u32) | (tsq << 8u32) | psq) & 0xff == psq,
{
}

/// The threat of the piece numbered `pc` on square `pc_sq` against the piece
/// numbered `victim` on square `victim_sq`, added or removed, as packed into
/// one word.
pub open spec fn packed_threat(add: bool, pc: int, victim: int, pc_sq: int, victim_sq: int) -> DirtyThreat {
    DirtyThreat(
        ((if add { 1u32 } else { 0u32 }) << 31u32) | ((pc as u32) << 20u32) | ((victim as u32) << 16u32)
            | ((victim_sq as u32) << 8u32) | (pc_sq as u32),
    )
}

impl DirtyThreat {
    /// The threat was added (not removed).
    pub open spec fn added(self) -> bool {
        (self.0 >> 31u32) != 0
    }

    /// Table index of the attacking piece.
    pub open spec fn attacker_id(self) -> int {
        ((self.0 >> 20u32) & 0xf) as int
    }

    /// Table index of the threatened piece.
    pub open spec fn victim_id(self) -> int {
        ((self.0 >> 16u32) & 0xf) as int
    }

    /// Number of the threatened square.
    pub open spec fn victim_sq(self) -> int {
        ((self.0 >> 8u32) & 0xff) as int
    }

    /// Number of the attacker's square.
    pub open spec fn attacker_sq(self) -> int {
        (self.0 & 0xff) as int
    }

    /// Packs a threat of `pc` on `pc_sq` against `threatened_pc` on
    /// `threatened_sq`, added or removed.
    pub fn new(add: bool, pc: Piece, threatened_pc: Piece, pc_sq: Square, threatened_sq: Square) -> (t: DirtyThreat)
        ensures
            t.added() == add,
            t.attacker_id() == pc.id(),
            t.victim_id() == threatened_pc.id(),
            t.attacker_sq() == pc_sq.id(),
            t.victim_sq() == threatened_sq.id(),
            t == packed_threat(add, pc.id(), threatened_pc.id(), pc_sq.id(), threatened_sq.id()),
    {
        let a: u32 = if add {
            1
        } else {
            0
        };
        let p = pc.index() as u32;
        let v = threatened_pc.index() as u32;
        let ts = threatened_sq.raw() as u32;
        let ps = pc_sq.raw() as u32;
        proof {
            lemma_pack_fields(add, p, v, ts, ps);
        }
        DirtyThreat((a << 31) | (p << 20) | (v << 16) | (ts << 8) | ps)
    }

    /// The threat was added.
    pub fn is_add(self) -> (r: bool)
        ensures
            r == ((self.0 >> 31u32) != 0),
    {
        (self.0 >> 31) != 0
    }

    /// Table index of the attacking piece.
    pub fn pc_raw(self) -> (r: u8)
        ensures
            r == (self.0 >> 20u32) & 0xf,
    {
        proof {
            lemma_fields_fit(self.0);
        }
        ((self.0 >> 20) & 0xF) as u8
    }

    /// Table index of the threatened piece.
    pub fn threatened_pc_raw(self) -> (r: u8)
        ensures
            r == (self.0 >> 16u32) & 0xf,
    {
        proof {
            lemma_fields_fit(self.0);
        }
        ((self.0 >> 16) & 0xF) as u8
    }

    /// Number of the threatened square.
    pub fn threatened_sq_raw(self) -> (r: u8)
        ensures
            r == (self.0 >> 8u32) & 0xff,
    {
        proof {
            lemma_fields_fit(self.0);
        }
        ((self.0 >> 8) & 0xFF) as u8
    }

    /// Number of the attacker's square.
    pub fn pc_sq_raw(self) -> (r: u8)
        ensures
            r == self.0 & 0xff,
    {
        proof {
            lemma_fields_fit(self.0);
        }
        (self.0 & 0xFF) as u8
    }
}

/// The threats a move changed, for the threat features, and which
/// perspectives must be rebuilt instead.
#[derive(Clone, Copy)]
pub struct DirtyThreats {
    pub count: usize,
    pub threats: [DirtyThreat; 64],
    pub requires_refresh: [bool; 2],
}

impl DirtyThreats {
    /// The recorded threats.
    pub open spec fn recorded(&self) -> Seq<DirtyThreat> {
        self.threats@.subrange(0, self.count as int)
    }

    pub fn new() -> (d: DirtyThreats)
        ensures
            d.count == 0,
            forall|i: int| 0 <= i < 64 ==> #[trigger] d.threats[i].0 == 0,
            d.requires_refresh@ == seq![false, false],
    {
        DirtyThreats { count: 0, threats: [DirtyThreat(0); 64], requires_refresh: [false, false] }
    }

    /// Records `t`; a full list keeps the threats it holds.
    pub fn push(&mut self, t: DirtyThreat)
        requires
            old(self).count <= MAX_DIRTY_THREATS,
        ensures
            final(self).count <= MAX_DIRTY_THREATS,
            old(self).count < MAX_DIRTY_THREATS ==> final(self).recorded() == old(self).recorded().push(t),
            old(self).count == MAX_DIRTY_THREATS ==> final(self).recorded() == old(self).recorded(),
            final(self).requires_refresh == old(self).requires_refresh,
    {
        if self.count < MAX_DIRTY_THREATS {
            self.threats[self.count] = t;
            self.count = self.count + 1;
            proof {
                assert(self.recorded() =~= old(self).recorded().push(t));
            }
        }
    }

    /// The recorded threats.
    pub fn as_slice(&self) -> (s: &[DirtyThreat])
        requires
            self.count <= MAX_DIRTY_THREATS,
        ensures
            s@ == self.recorded(),
    {
        vstd::slice::slice_subrange(self.threats.as_slice(), 0, self.count)
    }
}

/// What changed since the previous accumulator.
#[derive(Clone, Copy)]
pub enum DiffType {
    Unchanged,
    DirtyPiece(DirtyPiece),
    DirtyThreats(DirtyThreats),
}

impl Default for DiffType {
    fn default() -> (d: DiffType)
        ensures
            d is Unchanged,
    {
        DiffType::Unchanged
    }
}

/// An accumulator and how it differs from its predecessor.
#[derive(Clone, Copy)]
pub struct AccumulatorState {
    pub acc: Accumulator,
    pub diff: DiffType,
}

impl AccumulatorState {
    pub fn new() -> (s: AccumulatorState)
        ensures
            is_cleared(s.acc),
            s.diff is Unchanged,
    {
        AccumulatorState { acc: Accumulator::new(), diff: DiffType::Unchanged }
    }
}

/// Accumulator states for each ply of the current line, for both feature
/// sets; the one at `size` is current.
pub struct AccumulatorStack {
    psq: Vec<AccumulatorState>,
    threat: Vec<AccumulatorState>,
    size: usize,
}

impl AccumulatorStack {
    /// The piece-square states.
    pub closed spec fn psq_states(&self) -> Seq<AccumulatorState> {
        self.psq@
    }

    /// The threat states.
    pub closed spec fn threat_states(&self) -> Seq<AccumulatorState> {
        self.threat@
    }

    /// The index of the current state.
    pub closed spec fn depth(&self) -> int {
        self.size as int
    }

    /// Both stacks have a state at every ply up to the current one.
    pub closed spec fn wf(&self) -> bool {
        &&& self.psq@.len() == self.threat@.len()
        &&& self.size < self.psq@.len()
    }

    /// A stack with room for `capacity` plies, at ply 0.
    pub fn new(capacity: usize) -> (s: AccumulatorStack)
        requires
            capacity > 0,
        ensures
            s.wf(),
            s.depth() == 0,
            s.psq_states().len() == capacity,
            forall|i: int| 0 <= i < capacity ==> is_cleared(#[trigger] s.psq_states()[i].acc) && s.psq_states()[i].diff is Unchanged,
            forall|i: int| 0 <= i < capacity ==> is_cleared(#[trigger] s.threat_states()[i].acc) && s.threat_states()[i].diff is Unchanged,
    {
        let mut psq: Vec<AccumulatorState> = Vec::new();
        let mut threat: Vec<AccumulatorState> = Vec::new();
        let mut i: usize = 0;
        while i < capacity
            invariant
                i <= capacity,
                psq@.len() == i,
                threat@.len() == i,
                forall|j: int| 0 <= j < i ==> is_cleared(#[trigger] psq@[j].acc) && psq@[j].diff is Unchanged,
                forall|j: int| 0 <= j < i ==> is_cleared(#[trigger] threat@[j].acc) && threat@[j].diff is Unchanged,
            decreases capacity - i,
        {
            psq.push(AccumulatorState::new());
            threat.push(AccumulatorState::new());
            i = i + 1;
        }
        let s = AccumulatorStack { psq, threat, size: 0 };
        proof {
            assert(s.psq_states() == psq@);
            assert(s.threat_states() == threat@);
            assert forall|k: int| 0 <= k < capacity implies is_cleared(#[trigger] s.psq_states()[k].acc)
                && s.psq_states()[k].diff is Unchanged by {
                assert(is_cleared(psq@[k].acc));
            }
            assert forall|k: int| 0 <= k < capacity implies is_cleared(#[trigger] s.threat_states()[k].acc)
                && s.threat_states()[k].diff is Unchanged by {
                assert(is_cleared(threat@[k].acc));
            }
        }
        s
    }

    /// Back to ply 0, whose states are cleared.
    pub fn reset(&mut self)
        requires
            old(self).wf(),
        ensures
            final(self).wf(),
            final(self).depth() == 0,
            final(self).psq_states() == old(self).psq_states().update(0, AccumulatorState { acc: final(self).psq_states()[0].acc, diff: DiffType::Unchanged }),
            final(self).threat_states() == old(self).threat_states().update(0, AccumulatorState { acc: final(self).threat_states()[0].acc, diff: DiffType::Unchanged }),
            is_cleared(final(self).psq_states()[0].acc),
            is_cleared(final(self).threat_states()[0].acc),
    {
        self.size = 0;
        self.psq.set(0, AccumulatorState::new());
        self.threat.set(0, AccumulatorState::new());
    }

    pub fn size(&self) -> (n: usize)
        ensures
            n == self.depth(),
    {
        self.size
    }

    /// Goes one ply deeper, growing the stacks when full; the new current
    /// states keep their sums but are marked not computed and unchanged.
    pub fn push(&mut self)
        requires
            old(self).wf(),
            old(self).depth() + 1 < usize::MAX,
        ensures
            final(self).wf(),
            final(self).depth() == old(self).depth() + 1,
            final(self).psq_states().len() == (if old(self).depth() + 1 >= old(self).psq_states().len() {
                old(self).psq_states().len() + 1
            } else {
                old(self).psq_states().len() + 0
            }),
            forall|i: int| 0 <= i < final(self).depth() ==> #[trigger] final(self).psq_states()[i] == old(self).psq_states()[i],
            forall|i: int| 0 <= i < final(self).depth() ==> #[trigger] final(self).threat_states()[i] == old(self).threat_states()[i],
            final(self).psq_states()[final(self).depth()].acc.computed@ == seq![false, false],
            final(self).psq_states()[final(self).depth()].diff is Unchanged,
            final(self).threat_states()[final(self).depth()].acc.computed@ == seq![false, false],
            final(self).threat_states()[final(self).depth()].diff is Unchanged,
    {
        self.size = self.size + 1;
        if self.size >= self.psq.len() {
            self.psq.push(AccumulatorState::new());
            self.threat.push(AccumulatorState::new());
        }
        let p = self.psq[self.size];
        self.psq.set(
            self.size,
            AccumulatorState {
                acc: Accumulator {
                    accumulation: p.acc.accumulation,
                    psqt_accumulation: p.acc.psqt_accumulation,
                    computed: [false, false],
                },
                diff: DiffType::Unchanged,
            },
        );
        let t = self.threat[self.size];
        self.threat.set(
            self.size,
            AccumulatorState {
                acc: Accumulator {
                    accumulation: t.acc.accumulation,
                    psqt_accumulation: t.acc.psqt_accumulation,
                    computed: [false, false],
                },
                diff: DiffType::Unchanged,
            },
        );
    }

    /// Goes back one ply.
    pub fn pop(&mut self)
        requires
            old(self).wf(),
            old(self).depth() > 0,
        ensures
            final(self).wf(),
            final(self).depth() == old(self).depth() - 1,
            final(self).psq_states() == old(self).psq_states(),
            final(self).threat_states() == old(self).threat_states(),
    {
        self.size = self.size - 1;
    }

    pub fn current_psq(&self) -> (s: &AccumulatorState)
        requires
            self.wf(),
        ensures
            *s == self.psq_states()[self.depth()],
    {
        &self.psq[self.size]
    }

    pub fn current_psq_mut(&mut self) -> (s: &mut AccumulatorState)
        requires
            old(self).wf(),
        ensures
            *s == old(self).psq_states()[old(self).depth()],
            final(self).wf(),
            final(self).depth() == old(self).depth(),
            final(self).psq_states() == old(self).psq_states().update(old(self).depth(), *final(s)),
            final(self).threat_states() == old(self).threat_states(),
    {
        &mut self.psq[self.size]
    }

    pub fn current_threat(&self) -> (s: &AccumulatorState)
        requires
            self.wf(),
        ensures
            *s == self.threat_states()[self.depth()],
    {
        &self.threat[self.size]
    }

    pub fn current_threat_mut(&mut self) -> (s: &mut AccumulatorState)
        requires
            old(self).wf(),
        ensures
            *s == old(self).threat_states()[old(self).depth()],
            final(self).wf(),
            final(self).depth() == old(self).depth(),
            final(self).threat_states() == old(self).threat_states().update(old(self).depth(), *final(s)),
            final(self).psq_states() == old(self).psq_states(),
    {
        &mut self.threat[self.size]
    }

    /// The piece-square state one ply up, if any.
    pub fn prev_psq(&self) -> (s: Option<&AccumulatorState>)
        requires
            self.wf(),
        ensures
            match s {
                Some(st) => self.depth() > 0 && *st == self.psq_states()[self.depth() - 1],
                None => self.depth() == 0,
            },
    {
        if self.size > 0 {
            Some(&self.psq[self.size - 1])
        } else {
            None
        }
    }

    /// The threat state one ply up, if any.
    pub fn prev_threat(&self) -> (s: Option<&AccumulatorState>)
        requires
            self.wf(),
        ensures
            match s {
                Some(st) => self.depth() > 0 && *st == self.threat_states()[self.depth() - 1],
                None => self.depth() == 0,
            },
    {
        if self.size > 0 {
            Some(&self.threat[self.size - 1])
        } else {
            None
        }
    }

    /// Records the piece changes that lead to the current state.
    pub fn set_psq_diff(&mut self, dirty: DirtyPiece)
        requires
            old(self).wf(),
        ensures
            final(self).wf(),
            final(self).depth() == old(self).depth(),
            final(self).psq_states() == old(self).psq_states().update(
                old(self).depth(),
                AccumulatorState { acc: old(self).psq_states()[old(self).depth()].acc, diff: DiffType::DirtyPiece(dirty) },
            ),
            final(self).threat_states() == old(self).threat_states(),
    {
        let p = self.psq[self.size];
        self.psq.set(self.size, AccumulatorState { acc: p.acc, diff: DiffType::DirtyPiece(dirty) });
    }

    /// Records the threat changes that lead to the current state.
    pub fn set_threat_diff(&mut self, dirty: DirtyThreats)
        requires
            old(self).wf(),
        ensures
            final(self).wf(),
            final(self).depth() == old(self).depth(),
            final(self).threat_states() == old(self).threat_states().update(
                old(self).depth(),
                AccumulatorState { acc: old(self).threat_states()[old(self).depth()].acc, diff: DiffType::DirtyThreats(dirty) },
            ),
            final(self).psq_states() == old(self).psq_states(),
    {
        let t = self.threat[self.size];
        self.threat.set(self.size, AccumulatorState { acc: t.acc, diff: DiffType::DirtyThreats(dirty) });
    }
}

} // verus!
