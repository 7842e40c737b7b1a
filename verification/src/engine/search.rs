//! Negamax alpha-beta search.
//!
//! Iterative deepening is the outer loop: depth 1, then 2, then 3, each pass seeding the
//! next one's move ordering. Every interior node runs negamax alpha-beta with principal
//! variation search on top, a full window for the first move and zero-width scouts for the
//! rest, and the leaves fall through to quiescence so the horizon never falls in the middle
//! of an exchange.
//!
//! A search thread holds a [`Searcher`] and a [`Worker`]: the searcher has the root and
//! what the protocols read, the worker the board, the ply stack and what is kept beside
//! them through make and unmake.

use std::sync::atomic::Ordering;

use vstd::prelude::*;

use crate::chess::bitboard::Bitboard;
use crate::chess::defs::{INF, MATE_BOUND, MAX_PLY, SCORE_NONE};
use crate::chess::legal;
use crate::chess::moves::Move;
use crate::chess::pins::Pins;
use crate::chess::position::{self, Position};
use crate::chess::psq::Accumulator;
use crate::chess::rules;
use crate::chess::state;
use crate::chess::types::{PieceType, Square};
use crate::engine::config::{Protocol, SearchConfig};
use crate::engine::eval::{self, evaluate_with_pawn};
use crate::engine::history::{self, ContContext, History};
use crate::engine::line::{self, Line};
use crate::engine::movepicker;
use crate::engine::memory;
use crate::engine::pawns::{PawnCache, PawnFeatures};
use crate::engine::search_params::SearchParams;
use crate::engine::tm::{elapsed_ms, Budget};
use crate::engine::tt::{self, Bound, TranspositionTable, TtData};

verus! {

/// How many nodes pass between two looks at the clock.
pub const NODE_CHECK_INTERVAL: u64 = 2048;

/// How many nodes pass before the move being searched is reported.
pub const CURRMOVE_NODE_THRESHOLD: u64 = 100_000_000;

/// How many completed iterations are remembered.
pub const SNAPSHOTS: usize = 30;

/// No score at the root is further from zero.
pub const REACH: i32 = 30400;

/// No bound of a window is further from zero.
pub const WINDOW: i32 = 30150;

/// No score at `ply` is further from zero. Mates come closer by a point per ply.
pub open spec fn cap(ply: int) -> int {
    REACH - ply
}

/// The contexts a node is searched in: the root, which owns the move list, the principal
/// variation, and the scouts, which answer yes or no.
#[derive(Clone, Copy, Debug, PartialEq, Eq, Structural)]
pub enum NodeType {
    RootNode,
    PvNode,
    NonPvNode,
}

impl NodeType {
    /// Whether the node is on the principal variation.
    #[verifier::allow_in_spec]
    pub fn is_pv(self) -> bool
        returns
            self != NodeType::NonPvNode,
    {
        match self {
            NodeType::NonPvNode => false,
            _ => true,
        }
    }

    /// The context of a child searched with a full window.
    #[verifier::allow_in_spec]
    pub fn next(self) -> NodeType
        returns
            (match self {
                NodeType::NonPvNode => NodeType::NonPvNode,
                _ => NodeType::PvNode,
            }),
    {
        match self {
            NodeType::NonPvNode => NodeType::NonPvNode,
            _ => NodeType::PvNode,
        }
    }
}

/// The search was cut short by time, nodes or a stop from outside.
#[derive(Clone, Copy, Debug, PartialEq, Eq, Structural)]
pub struct SearchAborted;

/// A legal move at the root with what is known of it. After each iteration the list is
/// sorted by score, so the strongest move is searched first next time.
#[derive(Clone, Copy, Debug)]
pub struct RootMove {
    pub mv: Move,
    pub score: i32,
    pub pv: Line,
    /// The nodes below this move, over all iterations.
    pub nodes: u64,
}

impl RootMove {
    /// A root move of which nothing is known.
    pub fn new(mv: Move) -> (r: RootMove)
        ensures
            r.mv == mv,
            r.score == -INF,
            r.pv.wf(),
            r.pv.len == 0,
            r.nodes == 0,
    {
        RootMove { mv, score: -INF, pv: Line::new(), nodes: 0 }
    }
}

/// One completed iteration.
#[derive(Clone, Copy, Debug)]
pub struct PvSnapshot {
    pub depth: i32,
    pub time_ms: u64,
    pub score: i32,
    pub line: Line,
}

/// What a search has to say while it runs.
#[derive(Clone, Copy, Debug, PartialEq, Eq, Structural)]
pub enum Report {
    /// The score left its window: it is at most (`upper`) or at least this.
    Bound { depth: i32, score: i32, upper: bool },
    /// The root move being searched.
    CurrentMove { depth: i32, mv: Move, number: usize },
}

/// What is kept per ply.
#[derive(Clone, Copy, Debug)]
pub struct Stack {
    pub pv: Line,
    pub killers: [Move; 2],
    pub moved_pt: PieceType,
    pub moved_to: Square,
    pub static_eval: i32,
    /// Cutoffs among this node's children.
    pub cutoff_count: i32,
}

impl Stack {
    pub open spec fn wf(self) -> bool {
        &&& self.pv.wf()
        &&& movepicker::killer_like(self.killers[0])
        &&& movepicker::killer_like(self.killers[1])
        &&& self.killers[0] != self.killers[1] || self.killers[0].0 == 0
        &&& self.moved_to.ok()
    }

    /// Nothing yet.
    pub fn new() -> (s: Stack)
        ensures
            s.wf(),
            s.pv.len == 0,
            s.moved_pt == PieceType::Empty,
            s.static_eval == SCORE_NONE,
            s.cutoff_count == 0,
    {
        Stack {
            pv: Line::new(),
            killers: [Move::null(), Move::null()],
            moved_pt: PieceType::Empty,
            moved_to: Square(0),
            static_eval: SCORE_NONE,
            cutoff_count: 0,
        }
    }
}

/// Whether a search must stop: it was told to, its time is up, or its nodes are spent.
pub open spec fn spent(stopped: bool, budget: Budget, elapsed: u64, limit: u64, nodes: u64) -> bool {
    stopped || (budget.hard matches Some(h) && elapsed >= h) || (limit > 0 && nodes >= limit)
}

/// Whether a search must stop, from what the outside says.
pub fn must_stop(stopped: bool, budget: &Budget, elapsed: u64, limit: u64, nodes: u64) -> (r: bool)
    ensures
        r == spent(stopped, *budget, elapsed, limit, nodes),
{
    stopped || budget.is_hard_limit_reached(elapsed) || (limit > 0 && nodes >= limit)
}

/// Whether key `key` occurs again: among the positions since the last capture or pawn
/// move, the current one left out. Any second occurrence counts.
pub open spec fn repeated(trail: Seq<u64>, clock: int, key: u64) -> bool {
    exists|i: int| 0 <= i <= trail.len() - 2 && i >= trail.len() - clock - 1 && #[trigger] trail[i] == key
}

/// Whether key `key` occurs again.
fn is_repetition(key: u64, clock: u32, trail: &Vec<u64>) -> (r: bool)
    ensures
        r == repeated(trail@, clock as int, key),
{
    if trail.len() < 2 {
        return false;
    }
    let window: u64 = clock as u64 + 1;
    let n: usize = trail.len();
    let mut i: usize = if n as u64 > window {
        (n as u64 - window) as usize
    } else {
        0
    };
    let ghost start = i;
    while i < n - 1
        invariant
            n == trail@.len(),
            2 <= n,
            start <= i,
            start == (if n > clock + 1 {
                n - clock - 1
            } else {
                0
            }),
            i <= n,
            forall|j: int| start <= j < i && j <= n - 2 ==> #[trigger] trail@[j] != key,
        decreases n - i,
    {
        if trail[i] == key {
            return true;
        }
        i = i + 1;
    }
    false
}

/// The search of one thread, as the protocols see it.
pub struct Searcher<'cfg> {
    pub cfg: &'cfg SearchConfig,
    pub budget: Budget,
    pub root_moves: Vec<RootMove>,
    pub zobrist_trail: Vec<u64>,
    pub root_pos: Position,
    pub prev_pv: Line,
    pub prev_score: i32,
    pub nodes: u64,
    pub sel_depth: i32,
    pub iter_depth: i32,
    pub pv_history: Vec<PvSnapshot>,
    pub reports: Vec<Report>,
    pub tt: TranspositionTable,
}

impl Searcher<'_> {
    pub open spec fn wf(self) -> bool {
        self.cfg.wf() && self.kept()
    }

    /// The table and the lines are in order.
    #[verifier::opaque]
    pub open spec fn kept(self) -> bool {
        &&& self.tt.wf()
        &&& self.tt.within(REACH as int)
        &&& self.prev_pv.wf()
        &&& -INF <= self.prev_score <= REACH
        &&& forall|i: int|
            0 <= i < self.root_moves@.len() ==> (#[trigger] self.root_moves@[i]).pv.wf() && -INF <= self.root_moves@[i].score
                <= REACH
    }

    /// What no node changes, the root moves apart.
    pub open spec fn steady(self, o: Searcher) -> bool {
        &&& self.cfg == o.cfg
        &&& self.budget == o.budget
        &&& self.root_pos == o.root_pos
        &&& self.prev_pv == o.prev_pv
        &&& self.prev_score == o.prev_score
        &&& self.iter_depth == o.iter_depth
        &&& self.zobrist_trail@ == o.zobrist_trail@
        &&& self.pv_history@ == o.pv_history@
        &&& self.nodes >= o.nodes
    }

    /// What no node below the root changes.
    pub open spec fn calm(self, o: Searcher) -> bool {
        self.steady(o) && self.root_moves@ == o.root_moves@
    }

    /// The root moves are legal at the root, and their lines can be played from there.
    pub open spec fn rooted(self) -> bool {
        forall|i: int| 0 <= i < self.root_moves@.len() ==> Searcher::grows(self.root_pos, #[trigger] self.root_moves@[i])
    }

    /// A root move is legal in `p`, and its line, if there is one, can be played from there.
    pub open spec fn grows(p: Position, e: RootMove) -> bool {
        may(p, e.mv) && (e.pv.len > 0 ==> line::playable(p, e.pv@))
    }

    /// The nodes of all threads, as far as they have been published.
    fn node_count(&self) -> (n: u64) {
        let slots = &*self.cfg.node_slots;
        let mut total: u64 = 0;
        let mut i: usize = 0;
        while i < slots.len()
            invariant
                i <= slots@.len(),
            decreases slots@.len() - i,
        {
            total = total.saturating_add(slots[i].load(Ordering::Relaxed));
            i = i + 1;
        }
        total
    }

    /// Looks at the stop flag, the clock and the node count. The flag is raised for all
    /// threads on time; but this thread carries its first iteration to the end, so that the
    /// move it names is one it has looked at.
    pub fn check_signals(&self) -> (r: bool)
        requires
            self.wf(),
        ensures
            r ==> self.iter_depth > 1,
    {
        let slots = &*self.cfg.node_slots;
        slots[self.cfg.thread_id].store(self.nodes, Ordering::Relaxed);
        let stopped = self.cfg.stop.load(Ordering::Relaxed);
        let elapsed: u64 = elapsed_ms(&self.cfg.start_time);
        let total: u64 = self.node_count();
        if must_stop(stopped, &self.budget, elapsed, self.cfg.limits.nodes, total) {
            self.cfg.stop.store(true, Ordering::Relaxed);
        }
        self.heeds(stopped, elapsed, total)
    }

    /// Whether this thread gives up, from what the outside says: where the search must stop,
    /// once the first iteration is behind it.
    pub fn heeds(&self, stopped: bool, elapsed: u64, total: u64) -> (r: bool)
        ensures
            r == (spent(stopped, self.budget, elapsed, self.cfg.limits.nodes, total) && self.iter_depth > 1),
    {
        must_stop(stopped, &self.budget, elapsed, self.cfg.limits.nodes, total) && self.iter_depth > 1
    }

    /// Reports the root move being searched, once a search is long enough and the protocol
    /// asks for it.
    pub fn note_currmove(&mut self, depth: i32, mv: Move, number: usize)
        requires
            old(self).wf(),
        ensures
            final(self).tt == old(self).tt,
            final(self).wf(),
            final(self).calm(*old(self)),
            final(self).nodes == old(self).nodes,
            final(self).reports@ == (if old(self).cfg.limits.silent || old(self).cfg.display.go_pretty || old(
                self,
            ).cfg.limits.protocol != Protocol::Uci || !old(self).cfg.display.show_currmove || old(self).nodes
                < CURRMOVE_NODE_THRESHOLD {
                old(self).reports@
            } else {
                old(self).reports@.push(Report::CurrentMove { depth, mv, number })
            }),
    {
        if self.cfg.limits.silent || self.cfg.display.go_pretty || self.cfg.limits.protocol != Protocol::Uci
            || !self.cfg.display.show_currmove || self.nodes < CURRMOVE_NODE_THRESHOLD {
            return;
        }
        proof {
            reveal(Searcher::kept);
        }
        self.reports.push(Report::CurrentMove { depth, mv, number });
    }
}

/// Move `mv` is legal in `p`.
#[verifier::opaque]
pub open spec fn may(p: Position, mv: Move) -> bool {
    mv.canonical() && legal::legal(p, mv)
}

/// What a node's move loop has found so far.
#[derive(Clone, Copy, Debug)]
pub struct MoveResult {
    pub move_count: usize,
    pub best_eval: i32,
    pub alpha: i32,
    pub best_move: Move,
}

impl MoveResult {
    /// The findings fit a node at `ply` in position `p`.
    pub open spec fn fits(self, p: Position, ply: int) -> bool {
        &&& self.move_count == 0 ==> self.best_eval == -INF && self.best_move.0 == 0
        &&& self.move_count > 0 ==> -cap(ply) <= self.best_eval <= cap(ply)
        &&& self.best_move.0 != 0 ==> may(p, self.best_move)
        &&& -WINDOW <= self.alpha <= cap(ply)
    }
}

/// What a node knows of itself while its moves are searched.
#[derive(Clone, Copy, Debug)]
pub struct NodeCtx {
    pub node: NodeType,
    pub ply: usize,
    /// The depth the node was entered with.
    pub entry_depth: i32,
    pub beta: i32,
    pub in_check: bool,
    pub checkers: Bitboard,
    pub static_eval: i32,
    pub raw_eval: i32,
    pub improving: bool,
    pub excluded: Move,
    pub tt: TtData,
    pub tt_move: Option<Move>,
    pub pins: Pins,
}

impl NodeCtx {
    /// The context is that of a node in position `p`.
    pub open spec fn fits(self, p: Position) -> bool {
        self.ranges() && self.sees(p)
    }

    /// The numbers stay where they belong.
    pub open spec fn ranges(self) -> bool {
        &&& self.ply < MAX_PLY
        &&& (self.node == NodeType::RootNode) == (self.ply == 0)
        &&& 1 <= self.entry_depth <= 250 + self.ply
        &&& -WINDOW < self.beta
        &&& self.beta <= (if self.ply == 0 {
            REACH + 1
        } else {
            WINDOW as int
        })
        &&& !self.in_check ==> -MATE_BOUND <= self.static_eval <= MATE_BOUND
        &&& !self.in_check ==> -7_000_000 <= self.raw_eval <= 7_000_000
        &&& self.tt.bound != Bound::Empty ==> -cap(self.ply as int) <= self.tt.score <= cap(self.ply as int)
        &&& self.tt.bound == Bound::Empty ==> self.tt.score == SCORE_NONE
        &&& 0 <= self.tt.depth <= 255
    }

    /// The checks, the pins and the table's move are those of position `p`.
    #[verifier::opaque]
    pub open spec fn sees(self, p: Position) -> bool {
        &&& forall|a: int| #[trigger]
            self.checkers.has(a) <==> rules::hits(p.board(), p.stm.other(), a, position::king_of(p.board(), p.stm))
        &&& self.in_check <==> rules::attacked(p.board(), p.stm.other(), position::king_of(p.board(), p.stm))
        &&& self.tt_move matches Some(m) ==> m.canonical() && legal::pseudo_legal(p, m)
        &&& self.pins.of(p)
    }
}

/// The board and what is kept beside it through make and unmake.
pub struct Worker {
    pub pos: Position,
    pub accumulator: Accumulator,
    pub stack: Vec<Stack>,
    pub history: History,
    /// A cache of pawn structure, for one search.
    pub pawn_cache: PawnCache,
    /// Set while a null-move verification runs: it would otherwise try a null move of its
    /// own, and verify that in turn.
    pub is_nmp_verif: bool,
}

/// The plies a stack has room for.
pub const STACK_SIZE: usize = 248;

impl Worker {
    pub open spec fn wf(self) -> bool {
        self.stack@.len() == STACK_SIZE && self.kept()
    }

    /// The board, the stack and the tables are in order.
    #[verifier::opaque]
    pub open spec fn kept(self) -> bool {
        &&& self.pos.wf()
        &&& self.accumulator.of(self.pos.board())
        &&& forall|i: int| 0 <= i < STACK_SIZE ==> (#[trigger] self.stack@[i]).wf()
        &&& self.history.wf()
        &&& self.pawn_cache.wf()
    }

    /// The board is as it was, and so is the stack below `ply`. The histories have only learned,
    /// and the pawn cache has only seen positions that come after.
    pub open spec fn back(self, o: Worker, ply: int) -> bool {
        &&& self.wf()
        &&& self.pos == o.pos
        &&& self.accumulator == o.accumulator
        &&& self.is_nmp_verif == o.is_nmp_verif
        &&& self.history.grown(o.history)
        &&& memory::furnished(self.pawn_cache, o.pawn_cache, o.pos)
        &&& forall|j: int| 0 <= j < ply ==> #[trigger] self.stack@[j] == o.stack@[j]
    }

    /// The line at `ply` can be played from the board.
    pub open spec fn lined(self, ply: int) -> bool {
        line::playable(self.pos, self.stack@[ply].pv@)
    }

    /// A worker for a search from `pos`.
    pub fn new(pos: &Position, history: History) -> (w: Worker)
        requires
            pos.wf(),
            history.wf(),
        ensures
            w.wf(),
            w.pos == *pos,
            w.history == history,
            !w.is_nmp_verif,
            w.pawn_cache.drawn_from(Set::empty()),
    {
        proof {
            reveal(Worker::kept);
        }
        let mut stack: Vec<Stack> = Vec::with_capacity(STACK_SIZE);
        while stack.len() < STACK_SIZE
            invariant
                stack@.len() <= STACK_SIZE,
                forall|i: int| 0 <= i < stack@.len() ==> (#[trigger] stack@[i]).wf(),
            decreases STACK_SIZE - stack@.len(),
        {
            stack.push(Stack::new());
        }
        Worker {
            pos: *pos,
            accumulator: pos.get_initial_accumulator(),
            stack,
            history,
            pawn_cache: PawnCache::new(),
            is_nmp_verif: false,
        }
    }

    /// The contexts are the men moved one, two and four plies back and where they went, none
    /// where the root lies between.
    pub open spec fn behind(self, ply: int, r: (ContContext, ContContext, ContContext)) -> bool {
        &&& ply >= 1 ==> r.0.pt == self.stack@[ply - 1].moved_pt && r.0.to == self.stack@[ply - 1].moved_to
        &&& ply >= 2 ==> r.1.pt == self.stack@[ply - 2].moved_pt && r.1.to == self.stack@[ply - 2].moved_to
        &&& ply >= 4 ==> r.2.pt == self.stack@[ply - 4].moved_pt && r.2.to == self.stack@[ply - 4].moved_to
        &&& ply < 1 ==> r.0.pt == PieceType::Empty
        &&& ply < 2 ==> r.1.pt == PieceType::Empty
        &&& ply < 4 ==> r.2.pt == PieceType::Empty
    }

    /// The piece-to-square contexts one, two and four plies back, none where the ply is
    /// before the root.
    pub fn cont_contexts(&self, ply: usize) -> (r: (ContContext, ContContext, ContContext))
        requires
            self.wf(),
            ply < STACK_SIZE,
        ensures
            r.0.to.ok(),
            r.1.to.ok(),
            r.2.to.ok(),
            self.behind(ply as int, r),
    {
        proof {
            reveal(Worker::kept);
        }
        let c1 = if ply >= 1 {
            ContContext { pt: self.stack[ply - 1].moved_pt, to: self.stack[ply - 1].moved_to }
        } else {
            ContContext::none()
        };
        let c2 = if ply >= 2 {
            ContContext { pt: self.stack[ply - 2].moved_pt, to: self.stack[ply - 2].moved_to }
        } else {
            ContContext::none()
        };
        let c4 = if ply >= 4 {
            ContContext { pt: self.stack[ply - 4].moved_pt, to: self.stack[ply - 4].moved_to }
        } else {
            ContContext::none()
        };
        (c1, c2, c4)
    }

    /// Score `x` is the static evaluation of the board. Its pawn structure is the cached one
    /// where the cache holds the key, and the board's otherwise.
    #[verifier::opaque]
    pub open spec fn judged(self, x: int) -> bool {
        let slot = self.pawn_cache.entries@[PawnCache::slot(self.pos.pawn_key)];
        exists|pawn: PawnFeatures|
            {
                &&& #[trigger] eval::scored(self.pos, self.accumulator, pawn, x)
                &&& if slot.key == self.pos.pawn_key {
                    pawn == slot.pawn
                } else {
                    pawn.of(self.pos.board())
                }
            }
    }

    /// Score `x` is the static evaluation, held off the mates: what a leaf is worth.
    pub open spec fn gauged(self, x: int) -> bool {
        exists|raw: int| #[trigger] self.judged(raw) && x == history::clamped(raw, -MATE_BOUND as int, MATE_BOUND as int)
    }

    /// The static evaluation, with the pawn structure from the cache.
    pub fn evaluate(&mut self) -> (r: i32)
        requires
            old(self).wf(),
        ensures
            final(self).wf(),
            final(self).pos == old(self).pos,
            final(self).accumulator == old(self).accumulator,
            final(self).stack == old(self).stack,
            final(self).history == old(self).history,
            memory::furnished(final(self).pawn_cache, old(self).pawn_cache, old(self).pos),
            final(self).is_nmp_verif == old(self).is_nmp_verif,
            -7_000_000 <= r <= 7_000_000,
            old(self).judged(r as int),
    {
        proof {
            reveal(Worker::kept);
        }
        let pawn = self.pawn_cache.probe(&self.pos);
        proof {
            let i = PawnCache::slot(self.pos.pawn_key);
            memory::lemma_furnished_probe(
                self.pawn_cache,
                old(self).pawn_cache,
                self.pos,
                i,
                self.pawn_cache.entries@[i],
            );
        }
        let score: i32 = evaluate_with_pawn(&self.pos, &self.accumulator, &pawn);
        proof {
            reveal(Worker::judged);
        }
        score
    }

    /// The static evaluation of a leaf. It never reads as a mate.
    pub fn gauge(&mut self) -> (r: i32)
        requires
            old(self).wf(),
        ensures
            final(self).wf(),
            final(self).pos == old(self).pos,
            final(self).accumulator == old(self).accumulator,
            final(self).stack == old(self).stack,
            final(self).history == old(self).history,
            memory::furnished(final(self).pawn_cache, old(self).pawn_cache, old(self).pos),
            final(self).is_nmp_verif == old(self).is_nmp_verif,
            -MATE_BOUND <= r <= MATE_BOUND,
            old(self).gauged(r as int),
    {
        let score: i32 = self.evaluate();
        if score > MATE_BOUND {
            MATE_BOUND
        } else if score < -MATE_BOUND {
            -MATE_BOUND
        } else {
            score
        }
    }

    /// What the correction tables add to the evaluation of a position.
    pub open spec fn correction_spec(self, sp: SearchParams) -> int {
        let h = self.history;
        let p = self.pos;
        history::quotient(
            h.pawn_correction.data@[history::CorrectionHistory::place(p.stm, p.pawn_key)] + history::quotient(
                h.minor_correction.data@[history::CorrectionHistory::place(p.stm, p.minor_key)] * sp.minor_corr_weight()
                    + h.major_correction.data@[history::CorrectionHistory::place(p.stm, p.major_key)]
                    * sp.major_corr_weight(),
                sp.minor_corr_weight() + sp.major_corr_weight(),
            ),
            history::CORRECTION_SCALE as int,
        )
    }

    /// An evaluation shifted by the correction tables, never reading as a mate.
    pub fn corrected_eval(&self, raw: i32, sp: &SearchParams) -> (r: i32)
        requires
            self.wf(),
            sp.wf(),
            -10_000_000 <= raw <= 10_000_000,
        ensures
            r == history::clamped(raw + self.correction_spec(*sp), -MATE_BOUND as int, MATE_BOUND as int),
            -MATE_BOUND <= r <= MATE_BOUND,
    {
        proof {
            reveal(Worker::kept);
        }
        let c: i32 = self.history.correction(
            self.pos.stm,
            self.pos.pawn_key,
            self.pos.minor_key,
            self.pos.major_key,
            sp.minor_corr_weight(),
            sp.major_corr_weight(),
        );
        let x: i32 = raw + c / history::CORRECTION_SCALE;
        if x < -MATE_BOUND {
            -MATE_BOUND
        } else if x > MATE_BOUND {
            MATE_BOUND
        } else {
            x
        }
    }

    /// Drawn by rule: fifty moves, material, or, below the root, a repetition.
    ///
    /// A mate on the hundredth ply reads as a draw; move generation has not run yet.
    pub fn is_draw(&self, ply: usize, trail: &Vec<u64>) -> (r: bool)
        requires
            self.wf(),
        ensures
            r == (drawn(self.pos) || (ply > 0 && repeated(trail@, self.pos.halfmove_clock as int, self.pos.hash))),
    {
        proof {
            reveal(Worker::kept);
        }
        self.pos.is_fifty_move_draw() || self.pos.is_draw_by_material() || (ply > 0 && is_repetition(
            self.pos.hash,
            self.pos.halfmove_clock,
            trail,
        ))
    }
}

/// Drawn by fifty moves or by material.
pub open spec fn drawn(p: Position) -> bool {
    p.halfmove_clock >= state::FIFTY_MOVES || state::dead(p.board())
}

/// A key that stood on the board any number of plies ago, within the plies since the last capture
/// or pawn move, is a repetition, and below the root that is a draw.
pub proof fn law_a_key_that_stood_before_is_a_repetition(trail: Seq<u64>, clock: int, key: u64, ago: int)
    requires
        1 <= ago <= clock,
        ago < trail.len(),
        trail[trail.len() - 1 - ago] == key,
    ensures
        repeated(trail, clock, key),
{
    assert(trail[trail.len() - 1 - ago] == key);
}

/// Only such a key is one: a key that is nowhere in the trail before the last place, or nowhere
/// since the last capture or pawn move, is none.
pub proof fn law_a_fresh_key_is_no_repetition(trail: Seq<u64>, clock: int, key: u64)
    requires
        forall|ago: int| 1 <= ago <= clock && ago < trail.len() ==> #[trigger] trail[trail.len() - 1 - ago] != key,
    ensures
        !repeated(trail, clock, key),
{
    if repeated(trail, clock, key) {
        let i = choose|i: int| 0 <= i <= trail.len() - 2 && i >= trail.len() - clock - 1 && #[trigger] trail[i] == key;
        assert(trail[trail.len() - 1 - (trail.len() - 1 - i)] == key);
    }
}

/// The last place of the trail is the position itself, and does not count against it.
pub proof fn law_a_position_does_not_repeat_itself(trail: Seq<u64>, clock: int, key: u64)
    ensures
        repeated(trail.push(key), clock, key) <==> exists|i: int|
            0 <= i < trail.len() && trail.len() - i <= clock && #[trigger] trail[i] == key,
{
    let t = trail.push(key);
    if exists|i: int| 0 <= i < trail.len() && trail.len() - i <= clock && #[trigger] trail[i] == key {
        let i = choose|i: int| 0 <= i < trail.len() && trail.len() - i <= clock && #[trigger] trail[i] == key;
        assert(t[i] == key);
    }
    if repeated(t, clock, key) {
        let i = choose|i: int| 0 <= i <= t.len() - 2 && i >= t.len() - clock - 1 && #[trigger] t[i] == key;
        assert(trail[i] == key);
    }
}

/// A hundred plies without a capture or pawn move are a draw, and so is a board on which neither
/// side has more than a knight or bishop; nothing else is, by rule alone.
pub proof fn law_fifty_moves_or_bare_boards_are_draws(p: Position)
    ensures
        p.halfmove_clock >= 100 ==> drawn(p),
        p.halfmove_clock < 100 ==> (drawn(p) <==> state::dead(p.board())),
{
}

/// The corrections of an evaluation add up: the pawns' own, and the mean of the minors' and the
/// majors', a two hundred and fifty-sixth of each; tables that have learned nothing correct
/// nothing.
pub proof fn law_corrections_add_up(w: Worker, sp: SearchParams, x: int, y: int)
    requires
        sp.wf(),
        w.history.pawn_correction.data@[history::CorrectionHistory::place(w.pos.stm, w.pos.pawn_key)] == x,
        w.history.minor_correction.data@[history::CorrectionHistory::place(w.pos.stm, w.pos.minor_key)] == y,
        w.history.major_correction.data@[history::CorrectionHistory::place(w.pos.stm, w.pos.major_key)] == y,
    ensures
        w.correction_spec(sp) == history::quotient(x + y, history::CORRECTION_SCALE as int),
        x == 0 && y == 0 ==> w.correction_spec(sp) == 0,
{
    let a = sp.minor_corr_weight() as int;
    let b = sp.major_corr_weight() as int;
    assert(y * a + y * b == y * (a + b)) by (nonlinear_arith);
    let n = a + b;
    assert(y >= 0 ==> y * n >= 0 && y * n / n == y) by (nonlinear_arith)
        requires
            n >= 1,
    ;
    assert(y < 0 ==> y * n < 0 && (-(y * n)) / n == -y) by (nonlinear_arith)
        requires
            n >= 1,
    ;
}

/// A search that must stop must stop later too; one that is told to stops at once; and one without
/// limits stops only then.
pub proof fn law_what_must_stop_stays_stopped(
    stopped: bool,
    budget: Budget,
    elapsed: u64,
    later: u64,
    limit: u64,
    nodes: u64,
    more: u64,
)
    requires
        elapsed <= later,
        nodes <= more,
    ensures
        spent(stopped, budget, elapsed, limit, nodes) ==> spent(stopped, budget, later, limit, more),
        spent(true, budget, elapsed, limit, nodes),
        budget.hard is None && limit == 0 ==> spent(stopped, budget, elapsed, limit, nodes) == stopped,
        limit > 0 ==> spent(stopped, budget, elapsed, limit, limit),
        limit > nodes && budget.hard is None ==> spent(stopped, budget, elapsed, limit, nodes) == stopped,
        budget.hard matches Some(h) ==> spent(stopped, budget, h, limit, nodes),
        limit == 0 && (budget.hard matches Some(h) && elapsed < h) ==> spent(stopped, budget, elapsed, limit, nodes) == stopped,
{
}

} // verus!
