//! Zobrist hash keys, drawn from a fixed xorshift generator.

use vstd::prelude::*;

use crate::types::{Key, Piece};

verus! {

pub const ZOBRIST_SEED: u64 = 1070372;

/// One xorshift step of the generator state.
pub open spec fn prng_next(s: u64) -> u64 {
    let a = s ^ (s >> 12u64);
    let b = a ^ (a << 25u64);
    b ^ (b >> 27u64)
}

/// The generator state after `n` draws.
pub open spec fn prng_state(n: nat) -> u64
    decreases n,
{
    if n == 0 {
        ZOBRIST_SEED
    } else {
        prng_next(prng_state((n - 1) as nat))
    }
}

/// The `n`-th number drawn (counting from 0).
pub open spec fn prng_output(n: nat) -> u64 {
    ((prng_state(n + 1) as nat * 2685821657736338717nat) % 0x1_0000_0000_0000_0000nat) as u64
}

/// Position of piece `p` in the drawing order (white rook .. white king,
/// then black rook .. black king).
pub open spec fn draw_order(p: int) -> int {
    if p <= 7 {
        p - 1
    } else {
        p - 2
    }
}

/// The key of piece index `p` on square `s`: zero for the unused indices 0
/// and 8.
pub open spec fn psq_key(p: int, s: int) -> u64 {
    if p == 0 || p == 8 {
        0
    } else {
        prng_output((draw_order(p) * 90 + s) as nat)
    }
}

/// Key of the side to move.
pub open spec fn side_key() -> u64 {
    prng_output(1260)
}

/// Base of the pawn key.
pub open spec fn no_pawns_key() -> u64 {
    prng_output(1261)
}

struct Prng {
    s: u64,
}

impl Prng {
    fn rand64(&mut self) -> (r: u64)
        ensures
            final(self).s == prng_next(old(self).s),
            r == ((prng_next(old(self).s) as nat * 2685821657736338717nat)
                % 0x1_0000_0000_0000_0000nat) as u64,
    {
        self.s = self.s ^ (self.s >> 12u64);
        self.s = self.s ^ (self.s << 25u64);
        self.s = self.s ^ (self.s >> 27u64);
        self.s.wrapping_mul(2_685_821_657_736_338_717)
    }
}

/// The keys: `psq` holds piece index `p` on square `s` at `p * 90 + s`.
pub struct ZobristKeys {
    pub psq: Vec<Key>,
    pub side: Key,
    pub no_pawns: Key,
}

impl ZobristKeys {
    pub open spec fn wf(&self) -> bool {
        &&& self.psq.len() == Piece::NUM * 90
        &&& forall|p: int, s: int|
            0 <= p < 16 && 0 <= s < 90 ==> #[trigger] self.psq@[p * 90 + s] == psq_key(p, s)
        &&& self.side == side_key()
        &&& self.no_pawns == no_pawns_key()
    }

    /// Key of piece `pc` on square `s`.
    pub fn psq_of(&self, pc: Piece, s: crate::types::Square) -> (k: Key)
        requires
            self.wf(),
            s.valid(),
        ensures
            k == psq_key(pc.id(), s.id()),
    {
        self.psq[pc.index() * 90 + s.index()]
    }
}

/// Draws the keys.
pub fn zobrist() -> (z: ZobristKeys)
    ensures
        z.wf(),
{
    let mut rng = Prng { s: ZOBRIST_SEED };
    let mut psq: Vec<Key> = Vec::new();
    let mut p: usize = 0;
    let ghost mut n: nat = 0;
    while p < 16
        invariant
            p <= 16,
            psq.len() == p * 90,
            n == if p == 0 {
                0
            } else {
                (draw_order(p as int - 1) + 1) * 90
            },
            rng.s == prng_state(n),
            forall|q: int, s: int|
                0 <= q < p && 0 <= s < 90 ==> #[trigger] psq@[q * 90 + s] == psq_key(q, s),
        decreases 16 - p,
    {
        let mut s: usize = 0;
        let ghost n0 = n;
        while s < 90
            invariant
                p < 16,
                s <= 90,
                psq.len() == p * 90 + s,
                n0 == if p == 0 {
                    0
                } else {
                    (draw_order(p as int - 1) + 1) * 90
                },
                p == 0 || p == 8 ==> n == n0,
                p != 0 && p != 8 ==> n == n0 + s,
                p != 0 && p != 8 ==> n0 == draw_order(p as int) * 90,
                rng.s == prng_state(n),
                forall|q: int, t: int|
                    0 <= q < p && 0 <= t < 90 ==> #[trigger] psq@[q * 90 + t] == psq_key(q, t),
                forall|t: int| 0 <= t < s ==> #[trigger] psq@[p * 90 + t] == psq_key(p as int, t),
            decreases 90 - s,
        {
            let ghost old_psq = psq@;
            if p == 0 || p == 8 {
                psq.push(0);
            } else {
                let k = rng.rand64();
                psq.push(k);
                proof {
                    n = n + 1;
                }
            }
            proof {
                assert forall|q: int, t: int|
                    0 <= q < p && 0 <= t < 90 implies #[trigger] psq@[q * 90 + t] == psq_key(q, t) by {
                    assert(q * 90 + t < p * 90) by (nonlinear_arith)
                        requires
                            0 <= q < p,
                            0 <= t < 90,
                    ;
                    assert(psq@[q * 90 + t] == old_psq[q * 90 + t]);
                }
                assert forall|t: int| 0 <= t < s + 1 implies #[trigger] psq@[p * 90 + t] == psq_key(
                    p as int,
                    t,
                ) by {
                    if t < s {
                        assert(psq@[p * 90 + t] == old_psq[p * 90 + t]);
                    }
                }
            }
            s = s + 1;
        }
        proof {
            assert forall|q: int, t: int|
                0 <= q < p + 1 && 0 <= t < 90 implies #[trigger] psq@[q * 90 + t] == psq_key(q, t) by {
                if q == p {
                    assert(psq@[p * 90 + t] == psq_key(p as int, t));
                }
            }
        }
        p = p + 1;
    }
    let side = rng.rand64();
    let no_pawns = rng.rand64();
    ZobristKeys { psq, side, no_pawns }
}

} // verus!
