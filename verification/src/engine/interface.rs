//! The engine's front: search limits and their validation, moves read from
//! UCI text, and an engine that holds its settings, its network and the
//! position set by the front end.

use std::sync::Arc;

use vstd::prelude::*;
use vstd::string::StringSliceAdditionalSpecFns;
use vstd::string::StringExecFns;

use super::options::{EngineOptions, OptionError, UciOption, MAX_HASH_MB, MAX_MOVE_OVERHEAD, MAX_MULTI_PV, MAX_THREADS, set_spec, option_slot, names_multi_pv};
use crate::nnue::model::NnueError;
use crate::nnue::network::Network;
use crate::position::perft::lemma_room_after_move;
use crate::position::fen::{
    FenError, fen_accepted, fen_invalid, fen_numbers_fit, fen_ply, fen_unsupported, lemma_major_sum_bounds,
    push_decimal, start_fen,
};
use crate::position::movegen::GenType;
use crate::position::position::Position;
use crate::types::{
    Color, Depth, File, Move, Piece, PieceType, Rank, Square, Value, MAX_PLY, VALUE_ZERO, move_text,
};

verus! {

/// The settings after `Engine::set_option`: those of `set_spec`, except
/// that MultiPV refuses any value but 1.
pub open spec fn engine_set_spec(o: EngineOptions, name: Seq<u8>, value: Seq<u8>) -> Option<EngineOptions> {
    match set_spec(o, name, value) {
        Some(n) => if option_slot(name) == 2 && n.multi_pv != 1 {
            None
        } else {
            Some(n)
        },
        None => None,
    }
}

/// Why the engine refused a request.
#[derive(Debug)]
pub enum EngineError {
    /// The position text is not a FEN the engine plays.
    Fen(FenError),
    /// An option could not be set.
    Option(OptionError),
    /// The network could not be loaded.
    Nnue(NnueError),
    /// The search ended without a result.
    SearchFailed,
    /// The search limits are out of range; the text says which.
    InvalidLimits(String),
    /// A move text is not a legal move; it is the payload.
    IllegalMove(String),
}

/// What the front end asks of a search.
#[derive(Debug, Clone, PartialEq, Eq)]
pub struct SearchLimits {
    pub depth: Option<Depth>,
    pub nodes: Option<u64>,
    /// Remaining milliseconds for each side. With any clock supplied, zero or
    /// an omitted side means an exhausted clock; `[None, None]` means there
    /// is no clock limit.
    pub time: [Option<i64>; 2],
    pub inc: [Option<i64>; 2],
    pub movestogo: Option<i32>,
    pub movetime: Option<i64>,
    pub infinite: bool,
    pub ponder: bool,
    /// Restrict the search to these legal UCI root moves.
    pub search_moves: Vec<String>,
}

impl Default for SearchLimits {
    fn default() -> (l: Self)
        ensures
            l.depth is None,
            l.nodes is None,
            l.time[0] is None && l.time[1] is None,
            l.inc[0] is None && l.inc[1] is None,
            l.movestogo is None,
            l.movetime is None,
            !l.infinite,
            !l.ponder,
            l.search_moves@.len() == 0,
    {
        SearchLimits {
            depth: None,
            nodes: None,
            time: [None, None],
            inc: [None, None],
            movestogo: None,
            movetime: None,
            infinite: false,
            ponder: false,
            search_moves: Vec::new(),
        }
    }
}

/// A requested depth is within `1..MAX_PLY`.
pub open spec fn depth_ok(d: Option<Depth>) -> bool {
    d matches Some(x) ==> 1 <= x < MAX_PLY
}

/// A present value is at least `low`.
pub open spec fn at_least(v: Option<i64>, low: int) -> bool {
    v matches Some(x) ==> x >= low
}

/// Node, move-time and moves-to-go limits are positive, clocks and
/// increments are not negative.
pub open spec fn amounts_ok(l: SearchLimits) -> bool {
    &&& l.nodes != Some(0u64)
    &&& at_least(l.movetime, 1)
    &&& (l.movestogo matches Some(x) ==> x >= 1)
    &&& at_least(l.time[0], 0) && at_least(l.time[1], 0)
    &&& at_least(l.inc[0], 0) && at_least(l.inc[1], 0)
}

/// Whether `v` is a negative amount.
fn negative(v: Option<i64>) -> (r: bool)
    ensures
        r == !at_least(v, 0),
{
    match v {
        Some(x) => x < 0,
        None => false,
    }
}

impl SearchLimits {
    /// Checks limits supplied by an application: the depth first, then the
    /// amounts.
    pub fn validate(&self) -> (r: Result<(), EngineError>)
        ensures
            r is Ok <==> depth_ok(self.depth) && amounts_ok(*self),
            r matches Err(e) ==> e is InvalidLimits,
    {
        let bad_depth = match self.depth {
            Some(d) => d < 1 || d >= MAX_PLY,
            None => false,
        };
        if bad_depth {
            let mut msg = String::new();
            msg.append("depth must be in 1..");
            push_decimal(&mut msg, MAX_PLY as u64);
            return Err(EngineError::InvalidLimits(msg));
        }
        let zero_nodes = match self.nodes {
            Some(n) => n == 0,
            None => false,
        };
        let bad_movetime = match self.movetime {
            Some(v) => v <= 0,
            None => false,
        };
        let bad_movestogo = match self.movestogo {
            Some(v) => v <= 0,
            None => false,
        };
        if zero_nodes || bad_movetime || bad_movestogo || negative(self.time[0]) || negative(
            self.time[1],
        ) || negative(self.inc[0]) || negative(self.inc[1]) {
            return Err(
                EngineError::InvalidLimits(
                    "node, move-time and moves-to-go limits must be positive; clocks must be nonnegative".to_owned(),
                ),
            );
        }
        Ok(())
    }
}

/// A present amount, or `absent`.
pub open spec fn or_else(v: Option<i64>, absent: int) -> int {
    match v {
        Some(x) => x as int,
        None => absent,
    }
}

/// The larger of `x` and `low`.
pub open spec fn at_least_value(x: int, low: int) -> int {
    if x < low {
        low
    } else {
        x
    }
}

/// The search's clock for one side: none when no clock is supplied at all;
/// otherwise at least one millisecond, an omitted side counting as an
/// exhausted clock.
pub open spec fn clock_ms(l: SearchLimits, i: int) -> int {
    if l.time[0] is None && l.time[1] is None {
        0
    } else {
        at_least_value(or_else(l.time[i], 0), 1)
    }
}

/// A side's clock when some clock is supplied: at least one millisecond,
/// an omitted side counting as exhausted.
fn running_clock_ms(v: Option<i64>) -> (r: u64)
    ensures
        r == at_least_value(or_else(v, 0), 1),
{
    let t = match v {
        Some(x) => x,
        None => 0,
    };
    if t < 1 {
        1
    } else {
        t as u64
    }
}

/// Zero or more of a side's increment.
fn increment_ms(v: Option<i64>) -> (r: u64)
    ensures
        r == (if v is Some {
            at_least_value(or_else(v, 0), 0)
        } else {
            0
        }),
{
    match v {
        Some(x) => if x < 0 {
            0
        } else {
            x as u64
        },
        None => 0,
    }
}

/// The limits in the search's units: the depth kept within
/// `1..MAX_PLY`, absent clocks kept apart from exhausted ones, negative
/// increments as none, and moves-to-go and move time at least one.
pub fn convert_limits(limits: &SearchLimits) -> (sl: crate::search::time::SearchLimits)
    ensures
        sl.depth == (match limits.depth {
            Some(d) => if d < 1 {
                1
            } else if d > MAX_PLY - 1 {
                MAX_PLY - 1
            } else {
                d as int
            },
            None => 0,
        }),
        sl.nodes == (match limits.nodes {
            Some(n) => n,
            None => 0,
        }),
        sl.time[0] == clock_ms(*limits, 0) && sl.time[1] == clock_ms(*limits, 1),
        sl.inc[0] == (if limits.inc[0] is Some {
            at_least_value(or_else(limits.inc[0], 0), 0)
        } else {
            0
        }),
        sl.inc[1] == (if limits.inc[1] is Some {
            at_least_value(or_else(limits.inc[1], 0), 0)
        } else {
            0
        }),
        sl.movestogo == (match limits.movestogo {
            Some(m) => if m < 1 {
                1
            } else {
                m as int
            },
            None => 0,
        }),
        sl.movetime == (if limits.movetime is Some {
            at_least_value(or_else(limits.movetime, 0), 1)
        } else {
            0
        }),
        sl.infinite == limits.infinite,
        sl.ponder_mode == limits.ponder,
        sl.search_moves@.len() == limits.search_moves@.len(),
        forall|i: int| 0 <= i < sl.search_moves@.len() ==> #[trigger] sl.search_moves@[i]@ == limits.search_moves@[i]@,
        sl.move_overhead == 0,
{
    let mut sl = crate::search::time::SearchLimits::new();
    if let Some(d) = limits.depth {
        sl.depth = if d < 1 {
            1
        } else if d > MAX_PLY - 1 {
            MAX_PLY - 1
        } else {
            d
        };
    }
    if let Some(n) = limits.nodes {
        sl.nodes = n;
    }
    let has_clock = limits.time[0].is_some() || limits.time[1].is_some();
    if has_clock {
        sl.time[0] = running_clock_ms(limits.time[0]);
        sl.time[1] = running_clock_ms(limits.time[1]);
    }
    sl.inc[0] = increment_ms(limits.inc[0]);
    sl.inc[1] = increment_ms(limits.inc[1]);
    if let Some(mtg) = limits.movestogo {
        sl.movestogo = if mtg < 1 {
            1
        } else {
            mtg
        };
    }
    if let Some(mt) = limits.movetime {
        sl.movetime = if mt < 1 {
            1
        } else {
            mt as u64
        };
    }
    sl.infinite = limits.infinite;
    sl.ponder_mode = limits.ponder;
    let mut moves: Vec<String> = Vec::new();
    let mut k: usize = 0;
    while k < limits.search_moves.len()
        invariant
            k <= limits.search_moves@.len(),
            moves@.len() == k,
            forall|i: int| 0 <= i < k ==> #[trigger] moves@[i]@ == limits.search_moves@[i]@,
        decreases limits.search_moves@.len() - k,
    {
        moves.push(limits.search_moves[k].clone());
        k = k + 1;
    }
    sl.search_moves = moves;
    sl
}

/// Static scores in internal units, from the side to move's view.
#[derive(Debug, Clone, Copy, PartialEq, Eq, Structural)]
pub struct StaticEvaluation {
    /// Raw network score, absent without a network.
    pub nnue: Option<Value>,
    /// Evaluation after material scaling and the rule-60 adjustment.
    pub value: Value,
}

/// What a search reports.
#[derive(Debug, Clone, PartialEq, Eq)]
pub struct SearchResult {
    pub best_move: Move,
    pub ponder_move: Option<Move>,
    pub score: Value,
    pub score_cp: i32,
    pub wdl: Option<(i32, i32, i32)>,
    pub depth: Depth,
    pub seldepth: i32,
    pub nodes: u64,
    pub hashfull: i32,
    pub pv: Vec<Move>,
}

impl Default for SearchResult {
    fn default() -> (r: Self)
        ensures
            r.best_move == Move(0),
            r.ponder_move is None,
            r.score == 0 && r.score_cp == 0,
            r.wdl is None,
            r.depth == 0 && r.seldepth == 0,
            r.nodes == 0 && r.hashfull == 0,
            r.pv@.len() == 0,
    {
        SearchResult {
            best_move: Move::none(),
            ponder_move: None,
            score: VALUE_ZERO,
            score_cp: 0,
            wdl: None,
            depth: 0,
            seldepth: 0,
            nodes: 0,
            hashfull: 0,
            pv: Vec::new(),
        }
    }
}

/// The square named by a file letter `a`..`i` and a rank digit `0`..`9`.
pub open spec fn uci_square(f: u8, r: u8) -> Option<int> {
    if 97 <= f <= 105 && 48 <= r <= 57 {
        Some((r - 48) * 9 + (f - 97))
    } else {
        None
    }
}

/// The move that the four bytes `s`, such as `b0c2`, name, when it is legal
/// in `pos`.
pub open spec fn uci_move(pos: Position, s: Seq<u8>) -> Option<Move> {
    if s.len() == 4 && uci_square(s[0], s[1]) is Some && uci_square(s[2], s[3]) is Some {
        let m = Move((uci_square(s[0], s[1]).unwrap() * 128 + uci_square(s[2], s[3]).unwrap()) as u16);
        if pos.generated(GenType::Legal, m) {
            Some(m)
        } else {
            None
        }
    } else {
        None
    }
}

/// The file and rank a letter and a digit name, when they are on the board.
fn square_of(f: u8, r: u8) -> (s: Option<Square>)
    ensures
        match s {
            Some(sq) => uci_square(f, r) == Some(sq.id()) && sq.valid(),
            None => uci_square(f, r) is None,
        },
{
    if f < 97 || r < 48 {
        return None;
    }
    match (File::from_index(f - 97), Rank::from_index(r - 48)) {
        (Some(file), Some(rank)) => Some(Square::make(file, rank)),
        _ => None,
    }
}

/// Reads a move such as `b0c2` and returns it when it is legal in `pos`.
pub fn parse_uci_move(pos: &Position, s: &str) -> (r: Option<Move>)
    requires
        pos.valid(),
    ensures
        r == uci_move(*pos, s.spec_bytes()),
{
    let b = s.as_bytes();
    if b.len() != 4 {
        return None;
    }
    let from = match square_of(b[0], b[1]) {
        Some(sq) => sq,
        None => return None,
    };
    let to = match square_of(b[2], b[3]) {
        Some(sq) => sq,
        None => return None,
    };
    let m = Move::make(from, to);
    proof {
        let v = (from.id() * 128 + to.id()) as u16;
        assert(m.0 as int == from.id() * 128 + to.id());
        assert(m == Move(v));
    }
    if pos.is_legal_move(m) {
        Some(m)
    } else {
        None
    }
}

/// The bytes of a move's text.
pub open spec fn move_text_bytes(m: Move) -> Seq<u8> {
    Seq::new(4, |i: int| move_text(m)[i] as u8)
}

/// Reading back the text of a legal move gives the move.
pub proof fn lemma_move_text_read_back(pos: Position, m: Move)
    requires
        pos.generated(GenType::Legal, m),
    ensures
        uci_move(pos, move_text_bytes(m)) == Some(m),
{
    let b = move_text_bytes(m);
    let f = m.from_id();
    let t = m.to_id();
    assert(b[0] == 97 + f % 9 && b[1] == 48 + f / 9);
    assert(b[2] == 97 + t % 9 && b[3] == 48 + t / 9);
    assert(uci_square(b[0], b[1]) == Some(f));
    assert(uci_square(b[2], b[3]) == Some(t));
    assert(m == Move((f * 128 + t) as u16));
}

/// `s` names a legal move in `p` that does not take a king.
pub open spec fn playable(p: Position, s: Seq<u8>) -> bool {
    &&& uci_move(p, s) is Some
    &&& p.board[uci_move(p, s).unwrap().to_id()] == Piece::NONE || p.board[uci_move(
        p,
        s,
    ).unwrap().to_id()].type_of() != PieceType::King
}

/// `q` is `p` after the move that `s` names.
pub open spec fn steps_to(p: Position, s: Seq<u8>, q: Position) -> bool {
    let m = uci_move(p, s).unwrap();
    playable(p, s) && p.do_move_post(&q, m, p.gives_check_spec(m))
}

/// `ps` is the game that the move texts `ms` play from `ps[0]`.
pub open spec fn replays<'a>(ps: Seq<Position>, ms: Seq<&'a str>) -> bool {
    &&& ps.len() == ms.len() + 1
    &&& forall|i: int| 0 <= i < ms.len() ==> #[trigger] steps_to(ps[i], ms[i].spec_bytes(), ps[i + 1])
}

/// How `from_fen` refuses the text `b` with `e`.
pub open spec fn fen_refusal(b: Seq<u8>, e: FenError) -> bool {
    match e {
        FenError::Invalid(_) => fen_invalid(b),
        FenError::Unsupported(_) => fen_unsupported(b) && !fen_invalid(b),
    }
}

/// The settings of a new engine.
pub open spec fn default_options() -> EngineOptions {
    EngineOptions {
        hash_mb: 16,
        threads: 1,
        multi_pv: 1,
        move_overhead: 10,
        ponder: false,
        show_wdl: false,
    }
}

/// A position read from FEN has room for as many moves as its move counter
/// and the check counters allow.
proof fn lemma_parsed_room(p: &Position, b: Seq<u8>, k: int)
    requires
        p.parsed_from(b),
        fen_accepted(b),
        0 <= k <= i16::MAX,
        fen_ply(b) + k <= u16::MAX,
    ensures
        p.room_for(k),
{
    lemma_major_sum_bounds(p.board@, Color::White, 90);
    lemma_major_sum_bounds(p.board@, Color::Black, 90);
}

/// An engine: its settings, an optional network, and the current position.
pub struct Engine {
    options: EngineOptions,
    position: Position,
    network: Option<Arc<Network>>,
}

impl Engine {
    /// The engine's settings.
    pub closed spec fn options_view(&self) -> EngineOptions {
        self.options
    }

    /// The current position.
    pub closed spec fn position_view(&self) -> Position {
        self.position
    }

    /// The network the engine evaluates with, if any.
    pub closed spec fn network_view(&self) -> Option<Arc<Network>> {
        self.network
    }

    /// A new engine on the starting position with default settings.
    fn from_network(network: Option<Arc<Network>>) -> (r: Result<Engine, EngineError>)
        ensures
            match r {
                Ok(e) => e.options_view() == default_options() && e.position_view().parsed_from(
                    start_fen(),
                ) && e.network_view() == network,
                Err(EngineError::Fen(f)) => fen_refusal(start_fen(), f),
                Err(_) => false,
            },
    {
        let position = match Position::start_pos() {
            Ok(p) => p,
            Err(e) => return Err(EngineError::Fen(e)),
        };
        Ok(Engine { options: EngineOptions::default(), position, network })
    }

    /// An engine that shares the weights of `network`.
    pub fn with_network(network: Arc<Network>) -> (r: Result<Engine, EngineError>)
        ensures
            match r {
                Ok(e) => e.options_view() == default_options() && e.position_view().parsed_from(
                    start_fen(),
                ) && e.network_view() == Some(network),
                Err(EngineError::Fen(f)) => fen_refusal(start_fen(), f),
                Err(_) => false,
            },
    {
        Self::from_network(Some(network))
    }

    /// An engine without a network, for rule tests and diagnostics.
    pub fn without_nnue() -> (r: Result<Engine, EngineError>)
        ensures
            match r {
                Ok(e) => e.options_view() == default_options() && e.position_view().parsed_from(
                    start_fen(),
                ) && e.network_view() is None,
                Err(EngineError::Fen(f)) => fen_refusal(start_fen(), f),
                Err(_) => false,
            },
    {
        Self::from_network(None)
    }

    /// Whether the engine has a network.
    pub fn has_nnue(&self) -> (r: bool)
        ensures
            r == self.network_view() is Some,
    {
        self.network.is_some()
    }

    /// The engine's network, to be shared with another engine.
    pub fn network(&self) -> (r: Option<&Arc<Network>>)
        ensures
            match r {
                Some(n) => self.network_view() == Some(*n),
                None => self.network_view() is None,
            },
    {
        match &self.network {
            Some(n) => Some(n),
            None => None,
        }
    }

    /// Sets the option `name` to `value`; on an error nothing changes. The
    /// engine plays one principal variation, so MultiPV only takes 1.
    pub fn set_option(&mut self, name: &str, value: &str) -> (r: Result<(), EngineError>)
        ensures
            r is Ok <==> engine_set_spec(old(self).options_view(), name.spec_bytes(), value.spec_bytes()) is Some,
            r is Ok ==> final(self).options_view() == engine_set_spec(
                old(self).options_view(),
                name.spec_bytes(),
                value.spec_bytes(),
            ).unwrap(),
            r matches Err(e) ==> e is Option && final(self).options_view() == old(self).options_view(),
            final(self).position_view() == old(self).position_view(),
            final(self).network_view() == old(self).network_view(),
    {
        let mut next = self.options;
        match next.set(name, value) {
            Ok(()) => {
                if names_multi_pv(name) && next.multi_pv != 1 {
                    return Err(
                        EngineError::Option(
                            OptionError::InvalidValue {
                                name: name.to_owned(),
                                reason: "only one principal variation is supported".to_owned(),
                            },
                        ),
                    );
                }
                self.options = next;
                Ok(())
            },
            Err(e) => Err(EngineError::Option(e)),
        }
    }

    /// The engine's settings.
    pub fn options(&self) -> (o: &EngineOptions)
        ensures
            *o == self.options_view(),
    {
        &self.options
    }

    /// Goes back to the starting position.
    pub fn new_game(&mut self) -> (r: Result<(), EngineError>)
        ensures
            final(self).options_view() == old(self).options_view(),
            final(self).network_view() == old(self).network_view(),
            match r {
                Ok(()) => final(self).position_view().parsed_from(start_fen()),
                Err(EngineError::Fen(f)) => fen_refusal(start_fen(), f)
                    && final(self).position_view() == old(self).position_view(),
                Err(_) => false,
            },
    {
        self.position = match Position::start_pos() {
            Ok(p) => p,
            Err(e) => return Err(EngineError::Fen(e)),
        };
        Ok(())
    }

    /// Sets the position read from `fen` after the moves `moves`. Nothing
    /// changes when the text is refused or a move is not legal (a move that
    /// would take a king counts as not legal).
    #[verifier::rlimit(40)]
    pub fn set_position(&mut self, fen: &str, moves: &[&str]) -> (r: Result<(), EngineError>)
        requires
            fen_numbers_fit(fen.spec_bytes()),
            moves@.len() <= i16::MAX,
            fen_accepted(fen.spec_bytes()) ==> fen_ply(fen.spec_bytes()) + moves@.len() <= u16::MAX,
        ensures
            final(self).options_view() == old(self).options_view(),
            final(self).network_view() == old(self).network_view(),
            r is Err ==> final(self).position_view() == old(self).position_view(),
            match r {
                Ok(()) => fen_accepted(fen.spec_bytes()) && exists|ps: Seq<Position>|
                    #[trigger] replays(ps, moves@) && ps[0].parsed_from(fen.spec_bytes())
                        && final(self).position_view() == ps.last(),
                Err(EngineError::Fen(e)) => fen_refusal(fen.spec_bytes(), e),
                Err(EngineError::IllegalMove(s)) => fen_accepted(fen.spec_bytes()) && exists|
                    ps: Seq<Position>,
                |
                    1 <= ps.len() <= moves@.len() && #[trigger] replays(
                        ps,
                        moves@.take(ps.len() - 1),
                    ) && ps[0].parsed_from(fen.spec_bytes()) && !playable(
                        ps.last(),
                        moves@[ps.len() - 1].spec_bytes(),
                    ) && s@ == moves@[ps.len() - 1]@,
                Err(_) => false,
            },
    {
        let ghost b = fen.spec_bytes();
        let mut pos = match Position::from_fen(fen) {
            Ok(p) => p,
            Err(e) => return Err(EngineError::Fen(e)),
        };
        let ghost mut ps: Seq<Position> = seq![pos];
        proof {
            lemma_parsed_room(&pos, b, moves@.len() as int);
            assert(moves@.take(0) =~= Seq::<&str>::empty());
        }
        let mut i: usize = 0;
        while i < moves.len()
            invariant
                i <= moves@.len(),
                b == fen.spec_bytes(),
                fen_accepted(b),
                ps.len() == i + 1,
                replays(ps, moves@.take(i as int)),
                ps[0].parsed_from(b),
                ps.last() == pos,
                pos.valid(),
                pos.room_for(moves@.len() - i),
                *self == *old(self),
            decreases moves@.len() - i,
        {
            let text = moves[i];
            let m = match parse_uci_move(&pos, text) {
                Some(m) => m,
                None => {
                    proof {
                        assert(!playable(ps.last(), moves@[ps.len() - 1].spec_bytes()));
                    }
                    return Err(EngineError::IllegalMove(text.to_owned()));
                },
            };
            let target = pos.piece_on(m.to_sq());
            if target != Piece::NONE && target.piece_type() == PieceType::King {
                proof {
                    assert(!playable(ps.last(), moves@[ps.len() - 1].spec_bytes()));
                }
                return Err(EngineError::IllegalMove(text.to_owned()));
            }
            let ghost p0 = pos;
            let gives_check = pos.gives_check(m);
            pos.do_move(m, gives_check);
            proof {
                lemma_room_after_move(&p0, &pos, m, gives_check, moves@.len() - i - 1);
                assert(steps_to(p0, text.spec_bytes(), pos));
                let ps0 = ps;
                ps = ps.push(pos);
                assert forall|j: int| 0 <= j < i + 1 implies #[trigger] steps_to(
                    ps[j],
                    moves@.take(i + 1)[j].spec_bytes(),
                    ps[j + 1],
                ) by {
                    if j < i {
                        assert(steps_to(ps0[j], moves@.take(i as int)[j].spec_bytes(), ps0[j + 1]));
                    }
                }
            }
            i = i + 1;
        }
        proof {
            assert(moves@.take(moves@.len() as int) =~= moves@);
        }
        self.position = pos;
        Ok(())
    }

    /// The current position.
    pub fn position(&self) -> (p: &Position)
        ensures
            *p == self.position_view(),
    {
        &self.position
    }

    /// The options the engine announces.
    pub fn uci_options() -> (v: Vec<UciOption>)
        ensures
            v@.len() == 6,
            v@[0] matches UciOption::Spin { name, default, min, max } && name@ == "Hash"@ && default
                == 16 && min == 1 && max == MAX_HASH_MB,
            v@[1] matches UciOption::Spin { name, default, min, max } && name@ == "Threads"@
                && default == 1 && min == 1 && max == MAX_THREADS,
            v@[2] matches UciOption::Spin { name, default, min, max } && name@ == "MultiPV"@
                && default == 1 && min == 1 && max == MAX_MULTI_PV,
            v@[3] matches UciOption::Spin { name, default, min, max } && name@ == "Move Overhead"@
                && default == 10 && min == 0 && max == MAX_MOVE_OVERHEAD,
            v@[4] matches UciOption::Check { name, default } && name@ == "Ponder"@ && !default,
            v@[5] matches UciOption::Check { name, default } && name@ == "UCI_ShowWDL"@ && !default,
    {
        EngineOptions::uci_options()
    }
}

} // verus!
