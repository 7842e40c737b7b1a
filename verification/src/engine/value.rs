//! What the score of a node is.
//!
//! A score is settled at the door of a node, or by one of the prunings, or it is the greatest
//! of the scores that the moves searched bring, each the negated score of the node behind the
//! move. The relations here follow that down to the leaves. A node below is entered with what
//! its parent was entered with and what the nodes searched since have added: every result in
//! the table is that of a node, every slot of the pawn cache that of a position on the way, and
//! the men moved and the evaluations marked on the way from the root are those of the nodes
//! passed.

use vstd::prelude::*;

use crate::chess::bitboard::Bitboard;
use crate::chess::defs::{self, MATE, MAX_PLY, SCORE_NONE};
use crate::chess::legal;
use crate::chess::moves::Move;
use crate::chess::position::Position;
use crate::chess::rules;
use crate::chess::state;
use crate::chess::types::{PieceType, Square};
use crate::engine::config::{SearchConfig, LMR_SCALE};
use crate::engine::history::{self, ContContext};
use crate::engine::line;
use crate::engine::memory::{self, Mark, Memory, Origin};
use crate::engine::negamax;
use crate::engine::prune;
use crate::engine::prunings;
use crate::engine::quiesce;
use crate::engine::search::{self, MoveResult, NodeCtx, NodeType, Searcher, Worker, WINDOW};
use crate::engine::search_params::SearchParams;
use crate::engine::see;
use crate::engine::step;
use crate::engine::tt::{self, Bound, TranspositionTable, TtData};

verus! {

/// A node in position `p` is entered with `w` and `s`.
#[verifier::opaque]
pub open spec fn enters(p: Position, cfg: SearchConfig, trail: Seq<u64>, w: Worker, s: Searcher) -> bool {
    &&& w.wf() && s.wf()
    &&& w.pos == p
    &&& *s.cfg == cfg
    &&& s.zobrist_trail@ == trail
}

/// The node behind the legal move `mv` is entered with `w` and `s`.
#[verifier::opaque]
pub open spec fn follows(p: Position, cfg: SearchConfig, trail: Seq<u64>, mv: Move, w: Worker, s: Searcher) -> bool {
    &&& search::may(p, mv)
    &&& line::followed(p, mv, w.pos)
    &&& enters(w.pos, cfg, trail.push(w.pos.hash), w, s)
}

/// The node behind a pass is entered with `w` and `s`.
#[verifier::opaque]
pub open spec fn passes(p: Position, cfg: SearchConfig, trail: Seq<u64>, w: Worker, s: Searcher) -> bool {
    &&& step::turned(p, w.pos)
    &&& enters(w.pos, cfg, trail.push(w.pos.hash), w, s)
}

/// `x` is the greatest of the floor, if there is one, and the scores of `log`, and `mv` the
/// first move that scores it, none where the floor does.
pub open spec fn tops(floor: Option<int>, log: Seq<(Move, int)>, x: int, mv: Move) -> bool {
    &&& floor matches Some(f) ==> f <= x
    &&& forall|i: int| 0 <= i < log.len() ==> (#[trigger] log[i]).1 <= x
    &&& if floor == Some(x) {
        mv == Move(0)
    } else {
        exists|k: int| 0 <= k < log.len() && #[trigger] heads(log, k, x, mv)
    }
}

/// Entry `k` of `log` is the first that scores `x`, and is of move `mv`.
pub open spec fn heads(log: Seq<(Move, int)>, k: int, x: int, mv: Move) -> bool {
    &&& log[k] == (mv, x)
    &&& forall|j: int| 0 <= j < k ==> (#[trigger] log[j]).1 < x
}

/// Where the scores of `log` have lifted `alpha` to.
pub open spec fn peak(alpha: int, log: Seq<(Move, int)>) -> int
    decreases log.len(),
{
    if log.len() == 0 {
        alpha
    } else {
        legal::greater(peak(alpha, log.drop_last()), log.last().1)
    }
}

/// Nothing is searched once a score has reached beta.
pub open spec fn halts(log: Seq<(Move, int)>, beta: int) -> bool {
    forall|i: int| 0 <= i < log.len() - 1 ==> (#[trigger] log[i]).1 < beta
}

/// Move `m` was searched.
pub open spec fn logged(log: Seq<(Move, int)>, m: Move) -> bool {
    exists|i: int| 0 <= i < log.len() && (#[trigger] log[i]).0 == m
}

/// A quiescence node that is not in check leaves out a move that loses material and, deep
/// down, one that does not go on with the exchange on one square.
pub open spec fn left_out(p: Position, sp: SearchParams, prev: Option<Square>, qs_ply: int, m: Move) -> bool {
    ||| !prunings::worth_it(p, m, 0)
    ||| qs_ply >= sp.qs_recapture_ply() && (prev matches Some(t) && t.at() != m.dst())
}

/// `x` is a score of the quiescence node that is entered with `w` and `s`.
#[verifier::opaque]
pub open spec fn calmed(
    w: Worker,
    s: Searcher,
    node: NodeType,
    alpha: int,
    beta: int,
    ply: int,
    prev: Option<Square>,
    qs_ply: int,
    x: int,
) -> bool
    decreases MAX_PLY + 1 - ply, 0int, 8int,
{
    let p = w.pos;
    let sp = s.cfg.search_params;
    let d = negamax::told(s.tt, p, ply);
    if negamax::ended(p, s.zobrist_trail@, ply) {
        x == negamax::drawish(s.nodes)
    } else if ply >= MAX_PLY {
        w.gauged(x)
    } else if node == NodeType::NonPvNode && tt::settles(d.bound, d.score as int, alpha, beta) {
        x == d.score
    } else if step::checked(p) {
        if step::stuck(p, Move(0)) {
            x == ply - MATE
        } else {
            replied(p, *s.cfg, memory::origin(w, s), node, alpha, beta, ply, prev, qs_ply, None, x)
        }
    } else if d.eval != SCORE_NONE {
        posed(
            p,
            *s.cfg,
            memory::origin(w, s),
            node,
            alpha,
            beta,
            ply,
            prev,
            qs_ply,
            quiesce::patted(w, sp, d, d.eval as int),
            x,
        )
    } else if quiesce::glanced(w, sp) - quiesce::doubt(w, sp) >= beta {
        // The piece-square sums alone are far enough above beta.
        x == history::quotient(quiesce::glanced(w, sp) + beta, 2)
    } else {
        exists|raw: int| #[trigger]
            w.judged(raw) && posed(
                p,
                *s.cfg,
                memory::origin(w, s),
                node,
                alpha,
                beta,
                ply,
                prev,
                qs_ply,
                quiesce::patted(w, sp, d, raw),
                x,
            )
    }
}

/// `x` is a score of a quiescence node that stands pat at `pat`: standing pat settles it above
/// beta, and where no capture can lift it to alpha; else the captures may raise it.
#[verifier::opaque]
pub open spec fn posed(
    p: Position,
    cfg: SearchConfig,
    o: Origin,
    node: NodeType,
    alpha: int,
    beta: int,
    ply: int,
    prev: Option<Square>,
    qs_ply: int,
    pat: int,
    x: int,
) -> bool
    decreases MAX_PLY + 1 - ply, 0int, 7int,
{
    let lo = legal::greater(pat, alpha);
    if pat >= beta {
        x == history::quotient(pat + beta, 2)
    } else if quiesce::hopeless(p, cfg.search_params, pat, lo) {
        x == lo
    } else {
        replied(p, cfg, o, node, lo, beta, ply, prev, qs_ply, Some(pat), x)
    }
}

/// `x` is the greatest of the floor and the scores of the moves that a quiescence node
/// searches.
#[verifier::opaque]
pub open spec fn replied(
    p: Position,
    cfg: SearchConfig,
    o: Origin,
    node: NodeType,
    lo: int,
    beta: int,
    ply: int,
    prev: Option<Square>,
    qs_ply: int,
    floor: Option<int>,
    x: int,
) -> bool
    decreases MAX_PLY + 1 - ply, 0int, 6int,
{
    exists|log: Seq<(Move, int)>, mv: Move| #[trigger]
        tops(floor, log, x, mv) && sifted(p, cfg, o, node, lo, beta, ply, prev, qs_ply, floor is None, log, x)
}

/// [`replied`], where `mv` is the move that brings `x`.
#[verifier::opaque]
pub open spec fn answers(
    p: Position,
    cfg: SearchConfig,
    o: Origin,
    node: NodeType,
    lo: int,
    beta: int,
    ply: int,
    prev: Option<Square>,
    qs_ply: int,
    floor: Option<int>,
    x: int,
    mv: Move,
) -> bool
    decreases MAX_PLY + 1 - ply, 0int, 6int,
{
    exists|log: Seq<(Move, int)>| #[trigger]
        tops(floor, log, x, mv) && sifted(p, cfg, o, node, lo, beta, ply, prev, qs_ply, floor is None, log, x)
}

/// A quiescence node that is entered with `w` and `s` searches its moves, judges itself `raw`
/// where it is not in check, and scores `x` by move `mv`.
#[verifier::opaque]
pub open spec fn composed(
    w: Worker,
    s: Searcher,
    node: NodeType,
    alpha: int,
    beta: int,
    ply: int,
    prev: Option<Square>,
    qs_ply: int,
    raw: int,
    x: int,
    mv: Move,
) -> bool
    decreases MAX_PLY + 1 - ply, 0int, 8int,
{
    let p = w.pos;
    let sp = s.cfg.search_params;
    let d = negamax::told(s.tt, p, ply);
    let pat = quiesce::patted(w, sp, d, raw);
    let lo = legal::greater(pat, alpha);
    &&& !negamax::ended(p, s.zobrist_trail@, ply)
    &&& ply < MAX_PLY
    &&& !(node == NodeType::NonPvNode && tt::settles(d.bound, d.score as int, alpha, beta))
    &&& if step::checked(p) {
        &&& raw == SCORE_NONE
        &&& answers(p, *s.cfg, memory::origin(w, s), node, alpha, beta, ply, prev, qs_ply, None, x, mv)
    } else {
        &&& if d.eval != SCORE_NONE {
            raw == d.eval
        } else {
            w.judged(raw)
        }
        &&& pat < beta
        &&& !quiesce::hopeless(p, sp, pat, lo)
        &&& answers(p, *s.cfg, memory::origin(w, s), node, lo, beta, ply, prev, qs_ply, Some(pat), x, mv)
    }
}

/// The moves of `log` are those that a quiescence node searches: in check every reply, else
/// the captures and queen promotions that it does not leave out, and the table's move.
#[verifier::opaque]
pub open spec fn sifted(
    p: Position,
    cfg: SearchConfig,
    o: Origin,
    node: NodeType,
    lo: int,
    beta: int,
    ply: int,
    prev: Option<Square>,
    qs_ply: int,
    in_check: bool,
    log: Seq<(Move, int)>,
    x: int,
) -> bool
    decreases MAX_PLY + 1 - ply, 0int, 5int,
{
    &&& forall|i: int|
        0 <= i < log.len() ==> resolved(
            p,
            cfg,
            o,
            node,
            peak(lo, log.take(i)),
            beta,
            ply,
            qs_ply,
            (#[trigger] log[i]).0,
            log[i].1,
        ) && (in_check || !left_out(p, cfg.search_params, prev, qs_ply, log[i].0))
    &&& halts(log, beta)
    &&& x < beta ==> forall|m: Move| #[trigger]
        search::may(p, m) && (in_check || m.captures() || m.flag() == Move::PROM_Q) ==> logged(log, m) || (!in_check
            && left_out(p, cfg.search_params, prev, qs_ply, m))
}

/// Move `mv` of a quiescence node brings `v`: the negated score of the node behind it.
#[verifier::opaque]
pub open spec fn resolved(
    p: Position,
    cfg: SearchConfig,
    o: Origin,
    node: NodeType,
    alpha: int,
    beta: int,
    ply: int,
    qs_ply: int,
    mv: Move,
    v: int,
) -> bool
    decreases MAX_PLY + 1 - ply, 0int, 4int,
{
    ply < MAX_PLY && exists|w1: Worker, s1: Searcher| #[trigger]
        follows(p, cfg, o.trail, mv, w1, s1) && heir(p, cfg, o, ply, 0, memory::memory(w1, s1)) && calmed(
            w1,
            s1,
            node,
            -beta,
            -alpha,
            ply + 1,
            Some(Square(mv.dst() as u8)),
            qs_ply + 1,
            -v,
        )
}

/// What a node sees before it searches.
#[verifier::opaque]
pub open spec fn surveyed(
    w: Worker,
    s: Searcher,
    node: NodeType,
    depth: int,
    beta: int,
    ply: int,
    excluded: Move,
    ctx: NodeCtx,
) -> bool {
    let sp = s.cfg.search_params;
    &&& ctx.fits(w.pos)
    &&& ctx.node == node && ctx.ply == ply && ctx.entry_depth == depth && ctx.beta == beta && ctx.excluded == excluded
    &&& if excluded.0 == 0 {
        negamax::consulted(s, w.pos, ply, ctx.tt, ctx.tt_move)
    } else {
        ctx.tt == TtData::absent() && ctx.tt_move is None
    }
    &&& ctx.in_check == step::checked(w.pos)
    &&& if ctx.in_check {
        ctx.raw_eval == SCORE_NONE && ctx.static_eval == SCORE_NONE
    } else {
        &&& ctx.static_eval == history::clamped(
            ctx.raw_eval + w.correction_spec(sp),
            -defs::MATE_BOUND as int,
            defs::MATE_BOUND as int,
        )
        &&& if ctx.tt.eval != SCORE_NONE {
            ctx.raw_eval == ctx.tt.eval
        } else {
            w.judged(ctx.raw_eval as int)
        }
    }
    &&& ctx.improving == (!ctx.in_check && (ply < 2 || w.stack@[ply - 2].static_eval == SCORE_NONE || ctx.static_eval
        > w.stack@[ply - 2].static_eval))
}

/// The evaluation that a node marks at its ply: in check the one of two plies before.
pub open spec fn shown(ctx: NodeCtx, marks: Seq<Mark>) -> i32 {
    if ctx.in_check && ctx.ply >= 2 {
        marks[ctx.ply - 2].eval
    } else {
        ctx.static_eval
    }
}

/// What a node that is entered with `w` and `s` begins with once it has marked its evaluation.
pub open spec fn outlook(w: Worker, s: Searcher, ctx: NodeCtx) -> Origin {
    memory::viewing(memory::origin(w, s), ctx.ply as int, shown(ctx, memory::marks(w.stack@)))
}

impl NodeCtx {
    /// A scout that may be pruned as a whole.
    pub open spec fn prunable(self) -> bool {
        self.node == NodeType::NonPvNode && !self.in_check && self.excluded.0 == 0
    }

    /// The evaluation is so far above beta that the node is not searched.
    pub open spec fn far_above(self, sp: SearchParams) -> bool {
        let lead = self.lead();
        &&& self.entry_depth <= sp.rfp_depth()
        &&& !defs::wins(lead) && !defs::loses(lead)
        &&& lead - prune::rfp_span(self.entry_depth as int, self.improving, sp) >= self.beta
    }

    /// The node is so far below alpha that the quiescence search alone may settle it.
    pub open spec fn razors(self, sp: SearchParams, alpha: int) -> bool {
        &&& self.prunable()
        &&& self.entry_depth <= sp.razoring_depth()
        &&& self.static_eval + sp.razoring_margin() * self.entry_depth < alpha
    }

    /// The position is good enough to pass the turn in, and not one of king and pawns alone.
    pub open spec fn passable(self, p: Position) -> bool {
        &&& self.prunable()
        &&& self.lead() >= self.beta
        &&& exists|y: int| #[trigger] state::piece_on(p.board(), p.stm, y)
    }

    /// Captures are held against a raised beta.
    pub open spec fn raisable(self, sp: SearchParams) -> bool {
        &&& self.prunable()
        &&& self.entry_depth >= sp.probcut_depth_min()
        &&& !defs::wins(self.beta as int) && !defs::loses(self.beta as int)
    }

    /// The depth the moves are searched with: a check adds a ply, and a node for which the
    /// table names no move gives one up.
    pub open spec fn loop_depth(self, sp: SearchParams) -> int {
        let d = self.entry_depth + (if self.in_check {
            1int
        } else {
            0
        });
        if d >= sp.iir_depth() && self.tt_move is None {
            d - sp.iir_reduction()
        } else {
            d
        }
    }

    /// The table's move is asked whether it stands alone.
    pub open spec fn asks_alone(self, sp: SearchParams, mv: Move, depth: int) -> bool {
        self.node == NodeType::NonPvNode && self.excluded.0 == 0 && self.tt_move == Some(mv) && depth
            >= sp.singext_min_depth() && self.tt.depth >= depth - sp.singext_tt_depth() && self.tt.bound != Bound::Upper
            && -defs::MATE_BOUND < self.tt.score < defs::MATE_BOUND
    }

    /// The window in which the other moves are held against the table's.
    pub open spec fn alone_beta(self, sp: SearchParams, depth: int) -> int {
        legal::greater(self.tt.score - depth * sp.singext_margin(), -defs::MATE_BOUND as int)
    }
}

/// A null move brought `v`, and the node is scored `x` for it.
pub open spec fn null_score(v: int, beta: int, x: int) -> bool {
    &&& v >= beta && !defs::loses(v)
    &&& x == (if defs::wins(v) {
        beta
    } else {
        v
    })
}

/// A verification brought `y`, which clears beta.
pub open spec fn confirms(y: int, beta: int) -> bool {
    y >= beta
}

/// Without the table's move the node still brought `y`, and is scored `x` for it.
pub open spec fn multi_score(y: int, beta: int, x: int) -> bool {
    &&& y >= beta
    &&& x == (if defs::wins(y) || defs::loses(y) {
        beta
    } else {
        y
    })
}

/// A scout, `cut` plies short, that brought `x` is searched again at full depth.
pub open spec fn surprises(cut: int, alpha: int, x: int) -> bool {
    x > alpha && cut > 0
}

/// A move's reduced scout brought `x`, its scout at full depth `y`, and the move is scored `v`:
/// a reduced scout that surprises is held at full depth, and a scout inside the window gives
/// way to a search with the full window.
pub open spec fn settled_by(cut: int, alpha: int, beta: int, x: int, y: int, v: int) -> bool {
    &&& surprises(cut, alpha, x) || y == x
    &&& alpha < y < beta || v == y
}

/// How much of a reduction is left for a move that leads to `q`: a check forces the reply.
pub open spec fn eased(cfg: SearchConfig, q: Position, cut: int) -> int {
    if step::checked(q) {
        legal::greater(cut - cfg.search_params.check_lmr_bonus(), 0)
    } else {
        cut
    }
}

/// Move `mv`, searched after `n` others, is reduced by `cut` plies: a late quiet move off
/// checks, by the table at the root and by [`Worker::lateness`] below it. The histories have
/// grown out of those that the node was entered with, and the marks on the way to it are the
/// same; its killers and the cutoffs among its children are what the search has left there.
#[verifier::opaque]
pub open spec fn reduces(
    p: Position,
    cfg: SearchConfig,
    o: Origin,
    ctx: NodeCtx,
    d: int,
    n: int,
    mv: Move,
    cut: int,
) -> bool {
    if !(d >= 2 && n >= 1 && !mv.captures() && !ctx.in_check) {
        cut == 0
    } else if ctx.ply == 0 {
        cut == cfg.lmr_spec(d, n + 1) / (LMR_SCALE as int)
    } else {
        exists|w: Worker, threats: Bitboard, conts: (ContContext, ContContext, ContContext)|
            {
                &&& cut == #[trigger] w.lateness(cfg, ctx, mv, d, n, threats, conts)
                &&& w.wf()
                &&& w.history.grown(o.memory.history)
                &&& memory::shared(memory::marks(w.stack@), o.memory.marks, ctx.ply as int)
                &&& w.pos == p
                &&& reaches(p, threats)
                &&& w.behind(ctx.ply as int, conts)
            }
    }
}

/// The number of a move in the order of the search, as far as a counter goes.
pub open spec fn turn(i: int) -> int {
    legal::lesser(i, usize::MAX as int)
}

/// Without the table's move every other falls short of the window.
pub open spec fn falls_short(y: int, sb: int) -> bool {
    y < sb
}

/// Without the table's move the others reach the window, and not beta.
pub open spec fn keeps_up(y: int, sb: int, beta: int) -> bool {
    sb <= y < beta
}

/// A search brought `y`, less than `bar`.
pub open spec fn stays_below(y: int, bar: int) -> bool {
    y < bar
}

/// A quiescence search brought `y`, as much as `bar`.
pub open spec fn gets_through(y: int, bar: int) -> bool {
    y >= bar
}

/// A pass brought `v`, which does not cut.
pub open spec fn no_null_cut(v: int, beta: int) -> bool {
    v < beta || defs::loses(v)
}

/// Move `m` was judged not worth searching, after some of the moves of `log`.
#[verifier::opaque]
pub open spec fn skipped(
    p: Position,
    cfg: SearchConfig,
    o: Origin,
    ctx: NodeCtx,
    depth: int,
    alpha: int,
    log: Seq<(Move, int)>,
    m: Move,
) -> bool {
    exists|w: Worker, res: MoveResult, threats: Bitboard, conts: (ContContext, ContContext, ContContext), n: int| #[trigger]
        w.prunes(cfg.search_params, ctx, m, depth, res, threats, conts) && #[trigger] counted(alpha, log, n, res) && w.wf()
            && w.history.grown(o.memory.history) && memory::shared(
            memory::marks(w.stack@),
            o.memory.marks,
            ctx.ply as int,
        ) && w.pos == p && reaches(p, threats) && w.behind(ctx.ply as int, conts)
}

/// The result of a node after the first `n` moves of `log`.
pub open spec fn counted(alpha: int, log: Seq<(Move, int)>, n: int, res: MoveResult) -> bool {
    &&& 0 <= n <= log.len()
    &&& res.move_count == legal::lesser(n, usize::MAX as int)
    &&& res.alpha == peak(alpha, log.take(n))
}

/// The squares that the enemy attacks.
pub open spec fn reaches(p: Position, b: Bitboard) -> bool {
    forall|t: int| #[trigger] b.has(t) <==> rules::attacked(p.board(), p.stm.other(), t) && 0 <= t < 64
}

/// The node has no move to search.
pub open spec fn barren(p: Position, roots: Option<Seq<Move>>, ctx: NodeCtx) -> bool {
    match roots {
        Some(ms) => ms.len() == 0,
        None => step::stuck(p, ctx.excluded),
    }
}

/// What a node without a move to search scores: with its only move set aside it fails low.
pub open spec fn barren_score(ctx: NodeCtx, alpha: int) -> int {
    if ctx.excluded.0 != 0 {
        alpha
    } else if ctx.in_check {
        ctx.ply - MATE
    } else {
        0
    }
}

/// The measure of a depth.
pub open spec fn height(depth: int) -> int {
    if depth > 0 {
        depth
    } else {
        0
    }
}

/// The moves that the root searches.
pub open spec fn roots_of(s: Searcher, ply: int) -> Option<Seq<Move>> {
    if ply == 0 {
        Some(negamax::moves_of(s.root_moves@))
    } else {
        None
    }
}

/// `x` is a score of the node that is entered with `w` and `s`.
#[verifier::opaque]
pub open spec fn valued(
    w: Worker,
    s: Searcher,
    node: NodeType,
    depth: int,
    alpha: int,
    beta: int,
    ply: int,
    excluded: Move,
    after_null: bool,
    x: int,
) -> bool
    decreases MAX_PLY + 1 - ply, height(depth), 14int,
{
    let p = w.pos;
    let lo = negamax::lower(node, alpha, ply);
    let hi = negamax::upper(node, beta, ply);
    if negamax::ended(p, s.zobrist_trail@, ply) {
        x == negamax::drawish(s.nodes)
    } else if depth <= 0 {
        calmed(w, s, node, alpha, beta, ply, None, 0, x)
    } else if ply >= MAX_PLY {
        w.gauged(x)
    } else if lo >= hi {
        // Being mated here or mating with the next move is out of the window.
        x == lo
    } else if negamax::table_cuts(s.tt, p, node, depth, lo, hi, ply, excluded) {
        x == negamax::told(s.tt, p, ply).score
    } else {
        exists|ctx: NodeCtx| #[trigger]
            surveyed(w, s, node, depth, hi, ply, excluded, ctx) && (early(
                p,
                *s.cfg,
                outlook(w, s, ctx),
                roots_of(s, ply),
                w.is_nmp_verif,
                ctx,
                depth,
                ply,
                lo,
                after_null,
                x,
            ) || late(
                p,
                *s.cfg,
                outlook(w, s, ctx),
                roots_of(s, ply),
                w.is_nmp_verif,
                ctx,
                depth,
                ply,
                lo,
                after_null,
                x,
            ))
    }
}

/// `x` is what a node scores that is settled before its moves are searched, or that has none:
/// by reverse futility, razoring, the null move, ProbCut, or a table's move that is not needed.
#[verifier::opaque]
pub open spec fn early(
    p: Position,
    cfg: SearchConfig,
    o: Origin,
    roots: Option<Seq<Move>>,
    verifying: bool,
    ctx: NodeCtx,
    depth: int,
    ply: int,
    alpha: int,
    after_null: bool,
    x: int,
) -> bool
    decreases MAX_PLY + 1 - ply, height(depth), 13int,
{
    let sp = cfg.search_params;
    if ctx.prunable() && ctx.far_above(sp) {
        x == history::quotient(ctx.lead() + ctx.beta, 2)
    } else {
        ||| razored(p, cfg, o, ctx, depth, ply, alpha, x)
        ||| {
            &&& razor_failed(p, cfg, o, ctx, depth, ply, alpha)
            &&& !after_null && !verifying && null_cut(p, cfg, o, ctx, depth, ply, x)
        }
        ||| {
            &&& razor_failed(p, cfg, o, ctx, depth, ply, alpha)
            &&& null_failed(p, cfg, o, verifying, ctx, depth, ply, after_null)
            &&& prob_cut(p, cfg, o, verifying, ctx, depth, ply, x)
        }
        ||| {
            &&& held_out(p, cfg, o, verifying, ctx, depth, ply, alpha, after_null)
            &&& multi_cut(p, cfg, o, verifying, ctx, depth, ply, x) || (barren(p, roots, ctx) && x == barren_score(
                ctx,
                alpha,
            ))
        }
    }
}

/// Every pruning whose conditions hold was tried and fell short.
#[verifier::opaque]
pub open spec fn held_out(
    p: Position,
    cfg: SearchConfig,
    o: Origin,
    verifying: bool,
    ctx: NodeCtx,
    depth: int,
    ply: int,
    alpha: int,
    after_null: bool,
) -> bool
    decreases MAX_PLY + 1 - ply, height(depth), 12int,
{
    &&& razor_failed(p, cfg, o, ctx, depth, ply, alpha)
    &&& null_failed(p, cfg, o, verifying, ctx, depth, ply, after_null)
    &&& prob_failed(p, cfg, o, verifying, ctx, depth, ply)
}

/// Where the node is far below alpha, the quiescence search still came out above it.
#[verifier::opaque]
pub open spec fn razor_failed(
    p: Position,
    cfg: SearchConfig,
    o: Origin,
    ctx: NodeCtx,
    depth: int,
    ply: int,
    alpha: int,
) -> bool
    decreases MAX_PLY + 1 - ply, height(depth), 11int,
{
    ctx.razors(cfg.search_params, alpha) ==> exists|w1: Worker, s1: Searcher, y: int| #[trigger]
        enters(p, cfg, o.trail, w1, s1) && #[trigger] gets_through(y, alpha + 1)
            && heir(p, cfg, o, ply, height(depth), memory::memory(w1, s1)) && calmed(
            w1,
            s1,
            ctx.node,
            alpha,
            ctx.beta as int,
            ply,
            None,
            0,
            y,
        )
}

/// Where a pass is tried, it did not beat beta, or deep down a search without the null move did
/// not confirm it.
#[verifier::opaque]
pub open spec fn null_failed(
    p: Position,
    cfg: SearchConfig,
    o: Origin,
    verifying: bool,
    ctx: NodeCtx,
    depth: int,
    ply: int,
    after_null: bool,
) -> bool
    decreases MAX_PLY + 1 - ply, height(depth), 11int,
{
    let sp = cfg.search_params;
    let beta = ctx.beta as int;
    let nd = prune::null_depth_spec(depth, ctx.lead(), beta, sp);
    !after_null && !verifying && ctx.passable(p) ==> ply < MAX_PLY && 0 <= nd < depth && {
        exists|w1: Worker, s1: Searcher, v: int| #[trigger]
            passes(p, cfg, o.trail, w1, s1) && heir(p, cfg, o, ply, height(depth), memory::memory(w1, s1))
                && w1.stack@[ply].moved_pt == PieceType::Empty && !w1.is_nmp_verif && valued(
                w1,
                s1,
                NodeType::NonPvNode,
                nd,
                -beta,
                -beta + 1,
                ply + 1,
                Move(0),
                true,
                -v,
            ) && (#[trigger] no_null_cut(v, beta) || (depth > sp.nmp_verif_min_depth() && exists|
                w2: Worker,
                s2: Searcher,
                y: int,
            | #[trigger]
                enters(p, cfg, o.trail, w2, s2) && #[trigger] stays_below(y, beta)
                    && heir(p, cfg, o, ply, height(depth), memory::memory(w2, s2)) && w2.is_nmp_verif && valued(
                    w2,
                    s2,
                    NodeType::NonPvNode,
                    nd,
                    beta - 1,
                    beta,
                    ply,
                    Move(0),
                    false,
                    y,
                )))
    }
}

/// Where ProbCut is tried, no capture that holds its exchange clears the raised beta.
#[verifier::opaque]
pub open spec fn prob_failed(
    p: Position,
    cfg: SearchConfig,
    o: Origin,
    verifying: bool,
    ctx: NodeCtx,
    depth: int,
    ply: int,
) -> bool
    decreases MAX_PLY + 1 - ply, height(depth), 11int,
{
    let raised = ctx.beta + cfg.search_params.probcut_margin();
    let shallow = legal::greater(depth - 4, 1);
    ctx.raisable(cfg.search_params) ==> forall|m: Move| #[trigger]
        search::may(p, m) && (m.captures() || m.flag() == Move::PROM_Q) && prunings::worth_it(p, m, raised - ctx.static_eval)
            ==> exists|y: int| #[trigger]
            stays_below(y, raised) && probed(p, cfg, o, verifying, m, depth, ply, raised, shallow, y)
}

/// `x` is what move `mv` brings against `raised`: the quiescence search filters, a shallow
/// search confirms.
#[verifier::opaque]
pub open spec fn probed(
    p: Position,
    cfg: SearchConfig,
    o: Origin,
    verifying: bool,
    mv: Move,
    depth: int,
    ply: int,
    raised: int,
    shallow: int,
    x: int,
) -> bool
    decreases MAX_PLY + 1 - ply, height(depth), 9int,
{
    ply < MAX_PLY && {
        ||| stays_below(x, raised) && filtered(p, cfg, o, mv, depth, ply, raised, x)
        ||| {
            &&& exists|y: int| #[trigger] gets_through(y, raised) && filtered(p, cfg, o, mv, depth, ply, raised, y)
            &&& exists|w1: Worker, s1: Searcher| #[trigger]
                follows(p, cfg, o.trail, mv, w1, s1)
                    && heir(p, cfg, o, ply, height(depth), memory::memory(w1, s1))
                    && w1.is_nmp_verif == verifying && valued(
                    w1,
                    s1,
                    NodeType::NonPvNode,
                    shallow,
                    -raised,
                    -raised + 1,
                    ply + 1,
                    Move(0),
                    false,
                    -x,
                )
        }
    }
}

/// `y` is what the quiescence search makes of move `mv` against `raised`.
#[verifier::opaque]
pub open spec fn filtered(
    p: Position,
    cfg: SearchConfig,
    o: Origin,
    mv: Move,
    depth: int,
    ply: int,
    raised: int,
    y: int,
) -> bool
    decreases MAX_PLY + 1 - ply, height(depth), 8int,
{
    ply < MAX_PLY && exists|w1: Worker, s1: Searcher| #[trigger]
        follows(p, cfg, o.trail, mv, w1, s1) && heir(p, cfg, o, ply, height(depth), memory::memory(w1, s1)) && calmed(
            w1,
            s1,
            NodeType::NonPvNode,
            -raised,
            -raised + 1,
            ply + 1,
            Some(Square(mv.dst() as u8)),
            0,
            -y,
        )
}

/// `x` is what a node scores whose moves are searched: the greatest of what they bring. Every
/// pruning whose conditions hold was tried before and fell short.
#[verifier::opaque]
pub open spec fn late(
    p: Position,
    cfg: SearchConfig,
    o: Origin,
    roots: Option<Seq<Move>>,
    verifying: bool,
    ctx: NodeCtx,
    depth: int,
    ply: int,
    alpha: int,
    after_null: bool,
    x: int,
) -> bool
    decreases MAX_PLY + 1 - ply, height(depth), 13int,
{
    &&& !(ctx.prunable() && ctx.far_above(cfg.search_params))
    &&& !barren(p, roots, ctx)
    &&& held_out(p, cfg, o, verifying, ctx, depth, ply, alpha, after_null)
    &&& searched(p, cfg, o, roots, verifying, ctx, depth, ply, alpha, x)
}

/// The node is so far below alpha that the quiescence search alone settles it.
#[verifier::opaque]
pub open spec fn razored(
    p: Position,
    cfg: SearchConfig,
    o: Origin,
    ctx: NodeCtx,
    depth: int,
    ply: int,
    alpha: int,
    x: int,
) -> bool
    decreases MAX_PLY + 1 - ply, height(depth), 11int,
{
    &&& ctx.razors(cfg.search_params, alpha)
    &&& x <= alpha
    &&& exists|w1: Worker, s1: Searcher| #[trigger]
        enters(p, cfg, o.trail, w1, s1)
            && heir(p, cfg, o, ply, height(depth), memory::memory(w1, s1))
            && calmed(w1, s1, ctx.node, alpha, ctx.beta as int, ply, None, 0, x)
}

/// Passing the turn still beats beta after a reduced search, and deep down a search without
/// the null move confirms it.
#[verifier::opaque]
pub open spec fn null_cut(p: Position, cfg: SearchConfig, o: Origin, ctx: NodeCtx, depth: int, ply: int, x: int) -> bool
    decreases MAX_PLY + 1 - ply, height(depth), 11int,
{
    let sp = cfg.search_params;
    let beta = ctx.beta as int;
    let nd = prune::null_depth_spec(depth, ctx.lead(), beta, sp);
    &&& ply < MAX_PLY && 0 <= nd < depth
    &&& ctx.passable(p)
    &&& exists|w1: Worker, s1: Searcher, v: int| #[trigger]
        passes(p, cfg, o.trail, w1, s1) && #[trigger] null_score(v, beta, x)
            && heir(p, cfg, o, ply, height(depth), memory::memory(w1, s1))
            && w1.stack@[ply].moved_pt == PieceType::Empty && !w1.is_nmp_verif && valued(
            w1,
            s1,
            NodeType::NonPvNode,
            nd,
            -beta,
            -beta + 1,
            ply + 1,
            Move(0),
            true,
            -v,
        )
    &&& depth > sp.nmp_verif_min_depth() ==> exists|w2: Worker, s2: Searcher, y: int| #[trigger]
        enters(p, cfg, o.trail, w2, s2) && #[trigger] confirms(y, beta)
            && heir(p, cfg, o, ply, height(depth), memory::memory(w2, s2)) && w2.is_nmp_verif && valued(
            w2,
            s2,
            NodeType::NonPvNode,
            nd,
            beta - 1,
            beta,
            ply,
            Move(0),
            false,
            y,
        )
}

/// A capture clears a raised beta in a shallow search.
#[verifier::opaque]
pub open spec fn prob_cut(
    p: Position,
    cfg: SearchConfig,
    o: Origin,
    verifying: bool,
    ctx: NodeCtx,
    depth: int,
    ply: int,
    x: int,
) -> bool
    decreases MAX_PLY + 1 - ply, height(depth), 11int,
{
    exists|mv: Move| #[trigger] search::may(p, mv) && cleared(p, cfg, o, verifying, ctx, depth, ply, x, mv)
}

/// Capture `mv` brings `x`, as much as the raised beta.
#[verifier::opaque]
pub open spec fn cleared(
    p: Position,
    cfg: SearchConfig,
    o: Origin,
    verifying: bool,
    ctx: NodeCtx,
    depth: int,
    ply: int,
    x: int,
    mv: Move,
) -> bool
    decreases MAX_PLY + 1 - ply, height(depth), 10int,
{
    let raised = ctx.beta + cfg.search_params.probcut_margin();
    let shallow = legal::greater(depth - 4, 1);
    &&& ctx.raisable(cfg.search_params)
    &&& x >= raised
    &&& mv.captures() || mv.flag() == Move::PROM_Q
    &&& prunings::worth_it(p, mv, raised - ctx.static_eval)
    &&& probed(p, cfg, o, verifying, mv, depth, ply, raised, shallow, x)
}

/// `y` is what the node scores with move `mv` set aside, in a window just below the table's
/// score.
#[verifier::opaque]
pub open spec fn aside(
    p: Position,
    cfg: SearchConfig,
    o: Origin,
    verifying: bool,
    ctx: NodeCtx,
    depth: int,
    ply: int,
    d: int,
    mv: Move,
    y: int,
) -> bool
    decreases MAX_PLY + 1 - ply, height(depth), 3int,
{
    let sb = ctx.alone_beta(cfg.search_params, d);
    &&& 0 < (d - 1) / 2 < depth
    &&& exists|w1: Worker, s1: Searcher| #[trigger]
        enters(p, cfg, o.trail, w1, s1)
            && heir(p, cfg, o, ply, height(depth), memory::memory(w1, s1)) && w1.is_nmp_verif == verifying && valued(
            w1,
            s1,
            NodeType::NonPvNode,
            (d - 1) / 2,
            sb - 1,
            sb,
            ply,
            mv,
            false,
            y,
        )
}

/// The node clears beta without the table's move.
#[verifier::opaque]
pub open spec fn multi_cut(
    p: Position,
    cfg: SearchConfig,
    o: Origin,
    verifying: bool,
    ctx: NodeCtx,
    depth: int,
    ply: int,
    x: int,
) -> bool
    decreases MAX_PLY + 1 - ply, height(depth), 11int,
{
    let sp = cfg.search_params;
    let d = ctx.loop_depth(sp);
    &&& ctx.tt_move is Some && ctx.asks_alone(sp, ctx.tt_move->0, d)
    &&& search::may(p, ctx.tt_move->0)
    &&& exists|y: int| #[trigger]
        multi_score(y, ctx.beta as int, x) && y >= ctx.alone_beta(sp, d) && aside(
            p,
            cfg,
            o,
            verifying,
            ctx,
            depth,
            ply,
            d,
            ctx.tt_move->0,
            y,
        )
}

/// The table's move stands alone: every other falls short of it, and it is extended by a ply.
#[verifier::opaque]
pub open spec fn alone(
    p: Position,
    cfg: SearchConfig,
    o: Origin,
    verifying: bool,
    ctx: NodeCtx,
    depth: int,
    ply: int,
    d: int,
    mv: Move,
) -> bool
    decreases MAX_PLY + 1 - ply, height(depth), 4int,
{
    &&& ctx.asks_alone(cfg.search_params, mv, d)
    &&& exists|y: int| #[trigger]
        falls_short(y, ctx.alone_beta(cfg.search_params, d)) && aside(
            p,
            cfg,
            o,
            verifying,
            ctx,
            depth,
            ply,
            d,
            mv,
            y,
        )
}

/// The move is not asked whether it stands alone, or another keeps up with it.
#[verifier::opaque]
pub open spec fn matched(
    p: Position,
    cfg: SearchConfig,
    o: Origin,
    verifying: bool,
    ctx: NodeCtx,
    depth: int,
    ply: int,
    d: int,
    mv: Move,
) -> bool
    decreases MAX_PLY + 1 - ply, height(depth), 4int,
{
    ctx.asks_alone(cfg.search_params, mv, d) ==> exists|y: int| #[trigger]
        keeps_up(y, ctx.alone_beta(cfg.search_params, d), ctx.beta as int) && aside(
            p,
            cfg,
            o,
            verifying,
            ctx,
            depth,
            ply,
            d,
            mv,
            y,
        )
}

/// `x` is the greatest score of the moves searched.
#[verifier::opaque]
pub open spec fn searched(
    p: Position,
    cfg: SearchConfig,
    o: Origin,
    roots: Option<Seq<Move>>,
    verifying: bool,
    ctx: NodeCtx,
    depth: int,
    ply: int,
    alpha: int,
    x: int,
) -> bool
    decreases MAX_PLY + 1 - ply, height(depth), 11int,
{
    exists|log: Seq<(Move, int)>, mv: Move| #[trigger]
        tops(None, log, x, mv) && looped(p, cfg, o, roots, verifying, ctx, depth, ply, alpha, log, x)
}

/// [`searched`], where `mv` is the move that brings `x`.
#[verifier::opaque]
pub open spec fn found(
    p: Position,
    cfg: SearchConfig,
    o: Origin,
    roots: Option<Seq<Move>>,
    verifying: bool,
    ctx: NodeCtx,
    depth: int,
    ply: int,
    alpha: int,
    x: int,
    mv: Move,
) -> bool
    decreases MAX_PLY + 1 - ply, height(depth), 11int,
{
    exists|log: Seq<(Move, int)>| #[trigger]
        tops(None, log, x, mv) && looped(p, cfg, o, roots, verifying, ctx, depth, ply, alpha, log, x)
}

/// The moves of `log` are those that a node searches: at the root the listed moves in their
/// order, else legal moves but the one set aside. A score that reaches beta ends the search;
/// short of that every move is searched that is not skipped.
#[verifier::opaque]
pub open spec fn looped(
    p: Position,
    cfg: SearchConfig,
    o: Origin,
    roots: Option<Seq<Move>>,
    verifying: bool,
    ctx: NodeCtx,
    depth: int,
    ply: int,
    alpha: int,
    log: Seq<(Move, int)>,
    x: int,
) -> bool
    decreases MAX_PLY + 1 - ply, height(depth), 7int,
{
    let d = ctx.loop_depth(cfg.search_params);
    &&& forall|i: int|
        0 <= i < log.len() ==> tried(
            p,
            cfg,
            o,
            verifying,
            ctx,
            depth,
            ply,
            d,
            peak(alpha, log.take(i)),
            turn(i),
            (#[trigger] log[i]).0,
            log[i].1,
        )
    &&& halts(log, ctx.beta as int)
    &&& match roots {
        Some(ms) => {
            &&& log.len() <= ms.len()
            &&& forall|i: int| 0 <= i < log.len() ==> (#[trigger] log[i]).0 == ms[i]
            &&& x < ctx.beta ==> log.len() == ms.len()
        },
        None => {
            &&& forall|i: int| 0 <= i < log.len() ==> (#[trigger] log[i]).0 != ctx.excluded
            &&& x < ctx.beta ==> forall|m: Move| #[trigger]
                search::may(p, m) && m != ctx.excluded ==> logged(log, m) || skipped(p, cfg, o, ctx, d, alpha, log, m)
        },
    }
}

/// Move `mv`, searched after `n` others, brings `v`. It is searched to `d` plies if it stands
/// alone and a ply less otherwise, its scout reduced as its lateness says.
#[verifier::opaque]
pub open spec fn tried(
    p: Position,
    cfg: SearchConfig,
    o: Origin,
    verifying: bool,
    ctx: NodeCtx,
    depth: int,
    ply: int,
    d: int,
    alpha: int,
    n: int,
    mv: Move,
    v: int,
) -> bool
    decreases MAX_PLY + 1 - ply, height(depth), 6int,
{
    exists|cut: int| #[trigger]
        reduces(p, cfg, o, ctx, d, n, mv, cut) && {
            ||| {
                &&& alone(p, cfg, o, verifying, ctx, depth, ply, d, mv)
                &&& ran(p, cfg, o, verifying, ctx.node, ctx.beta as int, depth, ply, d, cut, n == 0, alpha, mv, v)
            }
            ||| {
                &&& matched(p, cfg, o, verifying, ctx, depth, ply, d, mv)
                &&& ran(p, cfg, o, verifying, ctx.node, ctx.beta as int, depth, ply, d - 1, cut, n == 0, alpha, mv, v)
            }
        }
}

/// Move `mv`, with `full` plies behind it and its scout reduced by `cut`, brings `v`.
#[verifier::opaque]
pub open spec fn ran(
    p: Position,
    cfg: SearchConfig,
    o: Origin,
    verifying: bool,
    parent: NodeType,
    beta: int,
    depth: int,
    ply: int,
    full: int,
    cut: int,
    first: bool,
    alpha: int,
    mv: Move,
    v: int,
) -> bool
    decreases MAX_PLY + 1 - ply, height(depth), 5int,
{
    ply < MAX_PLY && search::may(p, mv) && exists|q: Position| #[trigger]
        line::followed(p, mv, q) && sought(
            p,
            q,
            mv,
            cfg,
            o,
            verifying,
            parent,
            beta,
            depth,
            ply,
            full,
            eased(cfg, q, cut),
            first,
            alpha,
            v,
        )
}

/// `v` is what the node in position `q`, one ply below, brings its parent in `p`. The first move
/// is searched with the full window. A later one is scouted with a window of no width, `cut`
/// plies short; where that surprises, again at full depth, and inside the window again with the
/// full window. The window of the root may be wider than any score.
#[verifier::opaque]
pub open spec fn sought(
    p: Position,
    q: Position,
    mv: Move,
    cfg: SearchConfig,
    o: Origin,
    verifying: bool,
    parent: NodeType,
    beta: int,
    depth: int,
    ply: int,
    full: int,
    cut: int,
    first: bool,
    alpha: int,
    v: int,
) -> bool
    decreases MAX_PLY + 1 - ply, height(depth), 4int,
{
    let lo = legal::lesser(alpha, WINDOW - 1);
    let hi = legal::lesser(beta, WINDOW as int);
    let scout = NodeType::NonPvNode;
    ply < MAX_PLY && if first {
        brings(p, q, mv, cfg, o, verifying, depth, ply, parent.next(), full, -hi, -lo, v)
    } else {
        exists|x: int, y: int| #[trigger]
            settled_by(cut, alpha, beta, x, y, v) && {
                &&& brings(p, q, mv, cfg, o, verifying, depth, ply, scout, full - cut, -lo - 1, -lo, x)
                &&& surprises(cut, alpha, x) ==> brings(p, q, mv, cfg, o, verifying, depth, ply, scout, full, -lo - 1, -lo, y)
                &&& alpha < y < beta ==> brings(p, q, mv, cfg, o, verifying, depth, ply, parent.next(), full, -hi, -lo, v)
            }
    }
}

/// `v` is the negated score of the node in position `q`, behind move `mv` of its parent in `p`,
/// searched to depth `d` with the window from `a` to `b`.
#[verifier::opaque]
pub open spec fn brings(
    p: Position,
    q: Position,
    mv: Move,
    cfg: SearchConfig,
    o: Origin,
    verifying: bool,
    depth: int,
    ply: int,
    node: NodeType,
    d: int,
    a: int,
    b: int,
    v: int,
) -> bool
    decreases MAX_PLY + 1 - ply, height(depth), 3int,
{
    ply < MAX_PLY && exists|w1: Worker, s1: Searcher| #[trigger]
        enters(q, cfg, o.trail.push(q.hash), w1, s1) && heir(p, cfg, o, ply, height(depth), memory::memory(w1, s1))
            && memory::carried(memory::marks(w1.stack@), p, mv, ply) && w1.is_nmp_verif == verifying && valued(
            w1,
            s1,
            node,
            d,
            a,
            b,
            ply + 1,
            Move(0),
            false,
            -v,
        )
}

/// How a result came about.
pub enum Way {
    /// The moves were searched.
    Moves,
    /// A capture cleared a raised beta.
    Capture,
    /// The quiescence search resolved the captures.
    Calm,
}

/// What a node has found and puts into the table.
pub struct Find {
    pub way: Way,
    pub node: NodeType,
    pub depth: int,
    pub alpha: int,
    pub beta: int,
    pub ply: int,
    pub after_null: bool,
    pub prev: Option<Square>,
    pub qs_ply: int,
    pub ctx: NodeCtx,
    pub raw: int,
    pub x: int,
    pub mv: Move,
}

impl Find {
    /// Storing what was found in position `p` makes table `b` of table `a`. Table `t` is the one
    /// that the node was entered with.
    pub open spec fn kept(
        self,
        sp: SearchParams,
        p: Position,
        t: TranspositionTable,
        a: TranspositionTable,
        b: TranspositionTable,
    ) -> bool {
        match self.way {
            Way::Moves => tt::stored(
                a,
                b,
                p.hash,
                self.ply,
                self.ctx.loop_depth(sp),
                self.x,
                self.mv,
                negamax::bound_of(self.x, self.alpha, self.beta),
                self.node.is_pv() || self.ctx.tt.pv,
                self.ctx.raw_eval as int,
            ),
            Way::Capture => tt::stored(
                a,
                b,
                p.hash,
                self.ply,
                legal::greater(self.depth - 4, 1),
                self.x,
                self.mv,
                Bound::Lower,
                self.ctx.tt.pv,
                self.ctx.raw_eval as int,
            ),
            Way::Calm => tt::stored_qs(
                a,
                b,
                p.hash,
                self.ply,
                self.x,
                self.mv,
                negamax::bound_of(self.x, self.alpha, self.beta),
                self.node.is_pv() || negamax::told(t, p, self.ply).pv,
                self.raw,
            ),
        }
    }

    /// How deep the node was searched.
    pub open spec fn level(self) -> int {
        if self.way is Calm {
            0
        } else {
            height(self.depth)
        }
    }
}

/// Find `f` lies below the node at `ply`, or at the same ply below level `h`.
pub open spec fn lower_down(f: Find, ply: int, h: int) -> bool {
    f.ply <= MAX_PLY && (ply < f.ply || (f.ply == ply && f.level() < h))
}

/// Table `t` is the table before place `i` of `ts` with find `f` of a node below `p` stored. The
/// node was entered with `w` and `s`, when the table at place `k` stood.
#[verifier::opaque]
pub open spec fn filed(
    p: Position,
    cfg: SearchConfig,
    o: Origin,
    ply: int,
    ts: Seq<TranspositionTable>,
    i: int,
    t: TranspositionTable,
    w: Worker,
    s: Searcher,
    k: int,
    f: Find,
) -> bool {
    &&& 0 <= k < i && s.tt == ts[k]
    &&& w.wf() && s.wf() && *s.cfg == cfg
    &&& memory::visits(p, o.trail, w.pos, s.zobrist_trail@, f.ply - ply)
    &&& w.history.grown(o.memory.history)
    &&& memory::furnished(w.pawn_cache, o.memory.pawn_cache, p)
    &&& memory::shared(memory::marks(w.stack@), o.memory.marks, ply)
    &&& f.kept(cfg.search_params, w.pos, s.tt, ts[i - 1], t)
}

/// The table at place `i` of `ts` is the one before it with the result of a node stored that lies
/// below the node in `p` at `ply`, or at the same ply below level `h`.
#[verifier::opaque]
pub open spec fn deposited(
    p: Position,
    cfg: SearchConfig,
    o: Origin,
    ply: int,
    h: int,
    ts: Seq<TranspositionTable>,
    i: int,
    t: TranspositionTable,
) -> bool
    decreases MAX_PLY + 1 - ply, h, 0int,
{
    exists|w: Worker, s: Searcher, k: int, f: Find| #[trigger]
        filed(p, cfg, o, ply, ts, i, t, w, s, k, f) && lower_down(f, ply, h) && match f.way {
            Way::Moves => {
                &&& surveyed(w, s, f.node, f.depth, f.beta, f.ply, Move(0), f.ctx)
                &&& late(
                    w.pos,
                    cfg,
                    outlook(w, s, f.ctx),
                    roots_of(s, f.ply),
                    w.is_nmp_verif,
                    f.ctx,
                    f.depth,
                    f.ply,
                    f.alpha,
                    f.after_null,
                    f.x,
                )
                &&& found(
                    w.pos,
                    cfg,
                    outlook(w, s, f.ctx),
                    roots_of(s, f.ply),
                    w.is_nmp_verif,
                    f.ctx,
                    f.depth,
                    f.ply,
                    f.alpha,
                    f.x,
                    f.mv,
                )
            },
            Way::Capture => {
                &&& surveyed(w, s, f.node, f.depth, f.beta, f.ply, Move(0), f.ctx)
                &&& cleared(w.pos, cfg, outlook(w, s, f.ctx), w.is_nmp_verif, f.ctx, f.depth, f.ply, f.x, f.mv)
            },
            Way::Calm => composed(w, s, f.node, f.alpha, f.beta, f.ply, f.prev, f.qs_ply, f.raw, f.x, f.mv),
        }
}

/// The tables of `ts` lead from `a` to `b`.
pub open spec fn spans(ts: Seq<TranspositionTable>, a: TranspositionTable, b: TranspositionTable) -> bool {
    ts.len() > 0 && ts[0] == a && ts.last() == b
}

/// Table `t` is the one that the node in `p` at `ply` was entered with, with nothing stored since
/// but the results of nodes below it, or at the same ply below level `h`.
#[verifier::opaque]
pub open spec fn furthered(p: Position, cfg: SearchConfig, o: Origin, ply: int, h: int, t: TranspositionTable) -> bool
    decreases MAX_PLY + 1 - ply, h, 1int,
{
    exists|ts: Seq<TranspositionTable>| #[trigger]
        spans(ts, o.memory.tt, t) && forall|i: int|
            1 <= i < ts.len() ==> deposited(p, cfg, o, ply, h, ts, i, #[trigger] ts[i])
}

/// The node in `p` at `ply` was entered again, with `w` and `s`, and saw `ctx`.
#[verifier::opaque]
pub open spec fn glimpsed(p: Position, cfg: SearchConfig, o: Origin, ply: int, w: Worker, s: Searcher, ctx: NodeCtx) -> bool {
    &&& enters(p, cfg, o.trail, w, s)
    &&& w.history.grown(o.memory.history)
    &&& memory::furnished(w.pawn_cache, o.memory.pawn_cache, p)
    &&& memory::shared(memory::marks(w.stack@), o.memory.marks, ply)
    &&& surveyed(w, s, ctx.node, ctx.entry_depth as int, ctx.beta as int, ply, ctx.excluded, ctx)
}

/// Memory `m` is what the node in `p` at `ply` was entered with, and what nodes below it have
/// added: lessons, pawns seen, and results in the table. The marks above the node are the same,
/// and the evaluation marked at its ply is the one marked then, or that of a node in `p` searched
/// since.
#[verifier::opaque]
pub open spec fn heir(p: Position, cfg: SearchConfig, o: Origin, ply: int, h: int, m: Memory) -> bool
    decreases MAX_PLY + 1 - ply, h, 2int,
{
    &&& m.history.grown(o.memory.history)
    &&& memory::furnished(m.pawn_cache, o.memory.pawn_cache, p)
    &&& memory::shared(m.marks, o.memory.marks, ply)
    &&& furthered(p, cfg, o, ply, h, m.tt)
    &&& m.marks[ply].eval == o.memory.marks[ply].eval || exists|w: Worker, s: Searcher, ctx: NodeCtx| #[trigger]
        glimpsed(p, cfg, o, ply, w, s, ctx) && m.marks[ply].eval == shown(ctx, memory::marks(w.stack@)) && furthered(
            p,
            cfg,
            o,
            ply,
            h,
            s.tt,
        )
}

/// What a node in position `p` has found is on record after it.
#[verifier::opaque]
pub open spec fn noted(p: Position, ctx: NodeCtx, depth: int, alpha: int, x: int, mv: Move, w: Worker, s: Searcher) -> bool {
    exists|w0: Worker, s0: Searcher, res: MoveResult| #[trigger]
        negamax::concluded(w0, s0, w, s, ctx, res, depth, alpha) && w0.pos == p && res.best_eval == x && res.best_move == mv
}

/// The move that brought a node its score `x` is on record with it.
#[verifier::opaque]
pub open spec fn named(
    w0: Worker,
    s0: Searcher,
    ctx: NodeCtx,
    depth: int,
    ply: int,
    alpha: int,
    x: int,
    w1: Worker,
    s1: Searcher,
) -> bool {
    exists|mv: Move| #[trigger]
        noted(w0.pos, ctx, ctx.loop_depth(s0.cfg.search_params), alpha, x, mv, w1, s1) && found(
            w0.pos,
            *s0.cfg,
            outlook(w0, s0, ctx),
            roots_of(s0, ply),
            w0.is_nmp_verif,
            ctx,
            depth,
            ply,
            alpha,
            x,
            mv,
        )
}

/// What a node leaves behind with its score `x`: where it searched its moves, the score is on
/// record.
#[verifier::opaque]
pub open spec fn recorded(
    w0: Worker,
    s0: Searcher,
    node: NodeType,
    depth: int,
    alpha: int,
    beta: int,
    ply: int,
    excluded: Move,
    after_null: bool,
    x: int,
    w1: Worker,
    s1: Searcher,
) -> bool {
    exists|ctx: NodeCtx| #[trigger]
        surveyed(w0, s0, node, depth, beta, ply, excluded, ctx) && (early(
            w0.pos,
            *s0.cfg,
            outlook(w0, s0, ctx),
            roots_of(s0, ply),
            w0.is_nmp_verif,
            ctx,
            depth,
            ply,
            alpha,
            after_null,
            x,
        ) || (late(
            w0.pos,
            *s0.cfg,
            outlook(w0, s0, ctx),
            roots_of(s0, ply),
            w0.is_nmp_verif,
            ctx,
            depth,
            ply,
            alpha,
            after_null,
            x,
        ) && named(w0, s0, ctx, depth, ply, alpha, x, w1, s1)))
}

// Unfolding the relations.

pub proof fn lemma_peak_push(alpha: int, log: Seq<(Move, int)>, e: (Move, int))
    ensures
        peak(alpha, log.push(e)) == legal::greater(peak(alpha, log), e.1),
        log.push(e).take(log.len() as int) == log,
        forall|i: int| 0 <= i <= log.len() ==> #[trigger] log.push(e).take(i) == log.take(i),
{
    assert(log.push(e).drop_last() =~= log);
    assert(log.push(e).take(log.len() as int) =~= log);
    assert forall|i: int| 0 <= i <= log.len() implies #[trigger] log.push(e).take(i) == log.take(i) by {
        assert(log.push(e).take(i) =~= log.take(i));
    }
}

pub proof fn lemma_logged_push(log: Seq<(Move, int)>, e: (Move, int))
    ensures
        logged(log.push(e), e.0),
        forall|m: Move| #[trigger] logged(log, m) ==> logged(log.push(e), m),
{
    let l = log.push(e);
    assert(l[log.len() as int].0 == e.0);
    assert forall|m: Move| #[trigger] logged(log, m) implies logged(l, m) by {
        let i = choose|i: int| 0 <= i < log.len() && (#[trigger] log[i]).0 == m;
        assert(l[i].0 == m);
    }
}

pub proof fn lemma_skipped_push(
    p: Position,
    cfg: SearchConfig,
    o: Origin,
    ctx: NodeCtx,
    depth: int,
    alpha: int,
    log: Seq<(Move, int)>,
    e: (Move, int),
)
    ensures
        forall|m: Move| #[trigger]
            skipped(p, cfg, o, ctx, depth, alpha, log, m) ==> skipped(p, cfg, o, ctx, depth, alpha, log.push(e), m),
{
    reveal(skipped);
    lemma_peak_push(alpha, log, e);
    assert forall|m: Move| #[trigger] skipped(p, cfg, o, ctx, depth, alpha, log, m) implies skipped(
        p,
        cfg,
        o,
        ctx,
        depth,
        alpha,
        log.push(e),
        m,
    ) by {
        let (w, res, threats, conts, n) = choose|
            w: Worker,
            res: MoveResult,
            threats: Bitboard,
            conts: (ContContext, ContContext, ContContext),
            n: int,
        | #[trigger]
            w.prunes(cfg.search_params, ctx, m, depth, res, threats, conts) && #[trigger] counted(alpha, log, n, res) && w.wf()
                && w.history.grown(o.memory.history) && memory::shared(
            memory::marks(w.stack@),
            o.memory.marks,
            ctx.ply as int,
        ) && w.pos == p && reaches(p, threats) && w.behind(ctx.ply as int, conts);
        assert(counted(alpha, log.push(e), n, res));
    }
}

pub proof fn lemma_skipped(
    w: Worker,
    cfg: SearchConfig,
    o: Origin,
    ctx: NodeCtx,
    depth: int,
    alpha: int,
    log: Seq<(Move, int)>,
    m: Move,
    res: MoveResult,
    threats: Bitboard,
    conts: (ContContext, ContContext, ContContext),
)
    requires
        w.prunes(cfg.search_params, ctx, m, depth, res, threats, conts),
        res.move_count == legal::lesser(log.len() as int, usize::MAX as int),
        res.alpha == peak(alpha, log),
        w.wf(),
        w.history.grown(o.memory.history),
        memory::shared(memory::marks(w.stack@), o.memory.marks, ctx.ply as int),
        reaches(w.pos, threats),
        w.behind(ctx.ply as int, conts),
    ensures
        skipped(w.pos, cfg, o, ctx, depth, alpha, log, m),
{
    reveal(skipped);
    assert(log.take(log.len() as int) =~= log);
    assert(counted(alpha, log, log.len() as int, res));
}

/// A score between two entered moves.
pub proof fn lemma_tops_push(floor: Option<int>, log: Seq<(Move, int)>, x: int, mv: Move, e: (Move, int))
    requires
        tops(floor, log, x, mv) || (log.len() == 0 && floor is None && x < e.1),
    ensures
        tops(
            floor,
            log.push(e),
            legal::greater(x, e.1),
            if e.1 > x {
                e.0
            } else {
                mv
            },
        ),
{
    let l = log.push(e);
    assert(l[log.len() as int] == e);
    assert forall|i: int| 0 <= i < l.len() implies (#[trigger] l[i]).1 <= legal::greater(x, e.1) by {
        if i < log.len() {
            assert(l[i] == log[i]);
        }
    }
    if e.1 > x {
        assert forall|j: int| 0 <= j < log.len() implies (#[trigger] l[j]).1 < e.1 by {
            assert(l[j] == log[j]);
        }
        assert(heads(l, log.len() as int, e.1, e.0));
    } else if floor != Some(x) {
        let k = choose|k: int| 0 <= k < log.len() && #[trigger] heads(log, k, x, mv);
        assert forall|j: int| 0 <= j < k implies (#[trigger] l[j]).1 < x by {
            assert(l[j] == log[j]);
        }
        assert(heads(l, k, x, mv));
    }
}

pub proof fn lemma_resolved(
    p: Position,
    mv: Move,
    w1: Worker,
    s1: Searcher,
    cfg: SearchConfig,
    o: Origin,
    node: NodeType,
    alpha: int,
    beta: int,
    ply: int,
    to: Square,
    qs_ply: int,
    x: int,
)
    requires
        ply < MAX_PLY,
        search::may(p, mv),
        line::followed(p, mv, w1.pos),
        w1.wf(),
        s1.wf(),
        *s1.cfg == cfg,
        s1.zobrist_trail@ == o.trail.push(w1.pos.hash),
        to == Square(mv.dst() as u8),
        heir(p, cfg, o, ply, 0, memory::memory(w1, s1)),
        calmed(w1, s1, node, -beta, -alpha, ply + 1, Some(to), qs_ply + 1, x),
    ensures
        resolved(p, cfg, o, node, alpha, beta, ply, qs_ply, mv, -x),
{
    reveal(resolved);
    reveal(calmed);
    reveal(heir);
    assert(follows(p, cfg, o.trail, mv, w1, s1)) by {
        reveal(follows);
        reveal(enters);
    }
    assert(-(-x) == x);
}

pub proof fn lemma_replied(
    p: Position,
    cfg: SearchConfig,
    o: Origin,
    node: NodeType,
    lo: int,
    beta: int,
    ply: int,
    prev: Option<Square>,
    qs_ply: int,
    floor: Option<int>,
    log: Seq<(Move, int)>,
    x: int,
    mv: Move,
)
    requires
        tops(floor, log, x, mv),
        forall|i: int|
            0 <= i < log.len() ==> resolved(
                p,
                cfg,
                o,
                node,
                peak(lo, log.take(i)),
                beta,
                ply,
                qs_ply,
                (#[trigger] log[i]).0,
                log[i].1,
            ) && (floor is None || !left_out(p, cfg.search_params, prev, qs_ply, log[i].0)),
        halts(log, beta),
        x < beta ==> forall|m: Move| #[trigger]
            search::may(p, m) && (floor is None || m.captures() || m.flag() == Move::PROM_Q) ==> logged(log, m) || (floor
                is Some && left_out(p, cfg.search_params, prev, qs_ply, m)),
    ensures
        replied(p, cfg, o, node, lo, beta, ply, prev, qs_ply, floor, x),
        answers(p, cfg, o, node, lo, beta, ply, prev, qs_ply, floor, x, mv),
{
    reveal(replied);
    reveal(answers);
    reveal(sifted);
    assert(sifted(p, cfg, o, node, lo, beta, ply, prev, qs_ply, floor is None, log, x)) by {
        reveal(resolved);
    }
}

pub proof fn lemma_brings(
    p: Position,
    mv: Move,
    w1: Worker,
    s1: Searcher,
    cfg: SearchConfig,
    o: Origin,
    depth: int,
    ply: int,
    node: NodeType,
    d: int,
    a: int,
    b: int,
    x: int,
)
    requires
        ply < MAX_PLY,
        w1.wf(),
        s1.wf(),
        *s1.cfg == cfg,
        s1.zobrist_trail@ == o.trail.push(w1.pos.hash),
        heir(p, cfg, o, ply, height(depth), memory::memory(w1, s1)),
        memory::carried(memory::marks(w1.stack@), p, mv, ply),
        valued(w1, s1, node, d, a, b, ply + 1, Move(0), false, x),
    ensures
        brings(p, w1.pos, mv, cfg, o, w1.is_nmp_verif, depth, ply, node, d, a, b, -x),
{
    reveal(brings);
    reveal(valued);
    reveal(heir);
    assert(enters(w1.pos, cfg, o.trail.push(w1.pos.hash), w1, s1)) by {
        reveal(enters);
    }
    assert(-(-x) == x);
}

/// The first move of a node.
pub proof fn lemma_sought_first(
    p: Position,
    q: Position,
    mv: Move,
    cfg: SearchConfig,
    o: Origin,
    verifying: bool,
    parent: NodeType,
    beta: int,
    depth: int,
    ply: int,
    full: int,
    cut: int,
    alpha: int,
    v: int,
)
    requires
        ply < MAX_PLY,
        brings(
            p,
            q,
            mv,
            cfg,
            o,
            verifying,
            depth,
            ply,
            parent.next(),
            full,
            -legal::lesser(beta, WINDOW as int),
            -legal::lesser(alpha, WINDOW - 1),
            v,
        ),
    ensures
        sought(p, q, mv, cfg, o, verifying, parent, beta, depth, ply, full, cut, true, alpha, v),
{
    reveal(sought);
    reveal(brings);
}

/// A later move of a node.
pub proof fn lemma_sought_later(
    p: Position,
    q: Position,
    mv: Move,
    cfg: SearchConfig,
    o: Origin,
    verifying: bool,
    parent: NodeType,
    beta: int,
    depth: int,
    ply: int,
    full: int,
    cut: int,
    alpha: int,
    x: int,
    y: int,
    v: int,
)
    requires
        ply < MAX_PLY,
        settled_by(cut, alpha, beta, x, y, v),
        ({
            let lo = legal::lesser(alpha, WINDOW - 1);
            let hi = legal::lesser(beta, WINDOW as int);
            let scout = NodeType::NonPvNode;
            &&& brings(p, q, mv, cfg, o, verifying, depth, ply, scout, full - cut, -lo - 1, -lo, x)
            &&& surprises(cut, alpha, x) ==> brings(p, q, mv, cfg, o, verifying, depth, ply, scout, full, -lo - 1, -lo, y)
            &&& alpha < y < beta ==> brings(p, q, mv, cfg, o, verifying, depth, ply, parent.next(), full, -hi, -lo, v)
        }),
    ensures
        sought(p, q, mv, cfg, o, verifying, parent, beta, depth, ply, full, cut, false, alpha, v),
{
    reveal(sought);
    reveal(brings);
}

pub proof fn lemma_ran(
    p: Position,
    q: Position,
    mv: Move,
    cfg: SearchConfig,
    o: Origin,
    verifying: bool,
    parent: NodeType,
    beta: int,
    depth: int,
    ply: int,
    full: int,
    cut: int,
    first: bool,
    alpha: int,
    v: int,
)
    requires
        ply < MAX_PLY,
        search::may(p, mv),
        line::followed(p, mv, q),
        sought(
            p,
            q,
            mv,
            cfg,
            o,
            verifying,
            parent,
            beta,
            depth,
            ply,
            full,
            eased(cfg, q, cut),
            first,
            alpha,
            v,
        ),
    ensures
        ran(p, cfg, o, verifying, parent, beta, depth, ply, full, cut, first, alpha, mv, v),
{
    reveal(ran);
    reveal(sought);
}

pub proof fn lemma_tried(
    p: Position,
    cfg: SearchConfig,
    o: Origin,
    verifying: bool,
    ctx: NodeCtx,
    d: int,
    alpha: int,
    n: int,
    mv: Move,
    cut: int,
    extended: bool,
    v: int,
)
    requires
        reduces(p, cfg, o, ctx, d, n, mv, cut),
        if extended {
            alone(p, cfg, o, verifying, ctx, ctx.entry_depth as int, ctx.ply as int, d, mv)
        } else {
            matched(p, cfg, o, verifying, ctx, ctx.entry_depth as int, ctx.ply as int, d, mv)
        },
        ran(
            p,
            cfg,
            o,
            verifying,
            ctx.node,
            ctx.beta as int,
            ctx.entry_depth as int,
            ctx.ply as int,
            if extended {
                d
            } else {
                d - 1
            },
            cut,
            n == 0,
            alpha,
            mv,
            v,
        ),
    ensures
        tried(p, cfg, o, verifying, ctx, ctx.entry_depth as int, ctx.ply as int, d, alpha, n, mv, v),
{
    reveal(tried);
    reveal(alone);
    reveal(matched);
    reveal(ran);
}

/// A worker's own reduction.
pub proof fn lemma_reduces(
    w: Worker,
    cfg: SearchConfig,
    o: Origin,
    ctx: NodeCtx,
    d: int,
    n: int,
    mv: Move,
    threats: Bitboard,
    conts: (ContContext, ContContext, ContContext),
    cut: int,
)
    requires
        ctx.ply > 0,
        w.wf(),
        w.history.grown(o.memory.history),
        memory::shared(memory::marks(w.stack@), o.memory.marks, ctx.ply as int),
        reaches(w.pos, threats),
        w.behind(ctx.ply as int, conts),
        cut == (if d >= 2 && n >= 1 && !mv.captures() && !ctx.in_check {
            w.lateness(cfg, ctx, mv, d, n, threats, conts)
        } else {
            0
        }),
    ensures
        reduces(w.pos, cfg, o, ctx, d, n, mv, cut),
{
    reveal(reduces);
}

/// What setting the table's move aside comes to.
pub proof fn lemma_aside(
    w1: Worker,
    s1: Searcher,
    cfg: SearchConfig,
    o: Origin,
    ctx: NodeCtx,
    d: int,
    mv: Move,
    y: int,
)
    requires
        ({
            let sb = ctx.alone_beta(cfg.search_params, d);
            &&& w1.wf() && s1.wf() && *s1.cfg == cfg && s1.zobrist_trail@ == o.trail
            &&& heir(w1.pos, cfg, o, ctx.ply as int, height(ctx.entry_depth as int), memory::memory(w1, s1))
            &&& 0 < (d - 1) / 2 < ctx.entry_depth
            &&& valued(w1, s1, NodeType::NonPvNode, (d - 1) / 2, sb - 1, sb, ctx.ply as int, mv, false, y)
        }),
    ensures
        aside(w1.pos, cfg, o, w1.is_nmp_verif, ctx, ctx.entry_depth as int, ctx.ply as int, d, mv, y),
{
    reveal(aside);
    reveal(valued);
    reveal(heir);
    assert(enters(w1.pos, cfg, o.trail, w1, s1)) by {
        reveal(enters);
    }
}

/// The verdict of a verification that brought `y`: whether the move is extended, and the score
/// that cuts the node.
pub open spec fn verdict(y: int, sb: int, beta: int, extension: int, cut: Option<i32>) -> bool {
    &&& extension == history::flag(y < sb)
    &&& match cut {
        Some(c) => y >= sb && multi_score(y, beta, c as int),
        None => y < sb || y < beta,
    }
}

pub proof fn lemma_verdict(
    p: Position,
    cfg: SearchConfig,
    o: Origin,
    verifying: bool,
    ctx: NodeCtx,
    d: int,
    mv: Move,
    y: int,
    extension: int,
    cut: Option<i32>,
)
    requires
        d == ctx.loop_depth(cfg.search_params),
        ctx.asks_alone(cfg.search_params, mv, d),
        search::may(p, mv),
        verdict(y, ctx.alone_beta(cfg.search_params, d), ctx.beta as int, extension, cut),
        aside(p, cfg, o, verifying, ctx, ctx.entry_depth as int, ctx.ply as int, d, mv, y),
    ensures
        match cut {
            Some(c) => multi_cut(p, cfg, o, verifying, ctx, ctx.entry_depth as int, ctx.ply as int, c as int),
            None => if extension == 1 {
                alone(p, cfg, o, verifying, ctx, ctx.entry_depth as int, ctx.ply as int, d, mv)
            } else {
                matched(p, cfg, o, verifying, ctx, ctx.entry_depth as int, ctx.ply as int, d, mv)
            },
        },
{
    reveal(multi_cut);
    reveal(alone);
    reveal(matched);
    reveal(aside);
    let sb = ctx.alone_beta(cfg.search_params, d);
    assert(falls_short(y, sb) || keeps_up(y, sb, ctx.beta as int) || cut is Some);
}

/// A move that is not asked about is not extended.
pub proof fn lemma_not_asked(
    p: Position,
    cfg: SearchConfig,
    o: Origin,
    verifying: bool,
    ctx: NodeCtx,
    d: int,
    mv: Move,
)
    ensures
        !ctx.asks_alone(cfg.search_params, mv, d) ==> matched(p, cfg, o, verifying, ctx, ctx.entry_depth as int, ctx.ply as int, d, mv),
{
    reveal(matched);
}

/// The moves tried so far, each with the alpha of its time.
pub open spec fn all_tried(
    p: Position,
    cfg: SearchConfig,
    o: Origin,
    verifying: bool,
    ctx: NodeCtx,
    d: int,
    alpha: int,
    log: Seq<(Move, int)>,
) -> bool {
    forall|i: int|
        0 <= i < log.len() ==> tried(
            p,
            cfg,
            o,
            verifying,
            ctx,
            ctx.entry_depth as int,
            ctx.ply as int,
            d,
            peak(alpha, log.take(i)),
            turn(i),
            (#[trigger] log[i]).0,
            log[i].1,
        )
}

pub proof fn lemma_all_tried_push(
    p: Position,
    cfg: SearchConfig,
    o: Origin,
    verifying: bool,
    ctx: NodeCtx,
    d: int,
    alpha: int,
    log: Seq<(Move, int)>,
    e: (Move, int),
)
    requires
        all_tried(p, cfg, o, verifying, ctx, d, alpha, log),
        tried(
            p,
            cfg,
            o,
            verifying,
            ctx,
            ctx.entry_depth as int,
            ctx.ply as int,
            d,
            peak(alpha, log),
            turn(log.len() as int),
            e.0,
            e.1,
        ),
    ensures
        all_tried(p, cfg, o, verifying, ctx, d, alpha, log.push(e)),
{
    lemma_peak_push(alpha, log, e);
    let l = log.push(e);
    assert forall|i: int| 0 <= i < l.len() implies tried(
        p,
        cfg,
        o,
        verifying,
        ctx,
        ctx.entry_depth as int,
        ctx.ply as int,
        d,
        peak(alpha, l.take(i)),
        turn(i),
        (#[trigger] l[i]).0,
        l[i].1,
    ) by {
        assert(l.take(i) == log.take(i));
        if i < log.len() {
            assert(l[i] == log[i]);
        } else {
            assert(log.take(i) =~= log);
        }
    }
}

pub proof fn lemma_searched(
    p: Position,
    cfg: SearchConfig,
    o: Origin,
    roots: Option<Seq<Move>>,
    verifying: bool,
    ctx: NodeCtx,
    alpha: int,
    log: Seq<(Move, int)>,
    x: int,
    mv: Move,
)
    requires
        tops(None, log, x, mv),
        all_tried(p, cfg, o, verifying, ctx, ctx.loop_depth(cfg.search_params), alpha, log),
        halts(log, ctx.beta as int),
        match roots {
            Some(ms) => {
                &&& log.len() <= ms.len()
                &&& forall|i: int| 0 <= i < log.len() ==> (#[trigger] log[i]).0 == ms[i]
                &&& x < ctx.beta ==> log.len() == ms.len()
            },
            None => {
                &&& forall|i: int| 0 <= i < log.len() ==> (#[trigger] log[i]).0 != ctx.excluded
                &&& x < ctx.beta ==> forall|m: Move| #[trigger]
                    search::may(p, m) && m != ctx.excluded ==> logged(log, m) || skipped(
                        p,
                        cfg,
                        o,
                        ctx,
                        ctx.loop_depth(cfg.search_params),
                        alpha,
                        log,
                        m,
                    )
            },
        },
    ensures
        searched(p, cfg, o, roots, verifying, ctx, ctx.entry_depth as int, ctx.ply as int, alpha, x),
        found(p, cfg, o, roots, verifying, ctx, ctx.entry_depth as int, ctx.ply as int, alpha, x, mv),
{
    reveal(searched);
    reveal(found);
    reveal(looped);
    assert(looped(p, cfg, o, roots, verifying, ctx, ctx.entry_depth as int, ctx.ply as int, alpha, log, x)) by {
        reveal(tried);
    }
}

pub proof fn lemma_surveyed_alike(
    a: Worker,
    b: Worker,
    s: Searcher,
    t: Searcher,
    node: NodeType,
    depth: int,
    beta: int,
    ply: int,
    excluded: Move,
)
    requires
        negamax::alike(a, b, ply),
        negamax::akin(s, t),
    ensures
        forall|ctx: NodeCtx| #[trigger]
            surveyed(a, s, node, depth, beta, ply, excluded, ctx) ==> surveyed(b, t, node, depth, beta, ply, excluded, ctx),
{
    assert forall|ctx: NodeCtx| #[trigger] surveyed(a, s, node, depth, beta, ply, excluded, ctx) implies surveyed(
        b,
        t,
        node,
        depth,
        beta,
        ply,
        excluded,
        ctx,
    ) by {
        reveal(surveyed);
        reveal(negamax::consulted);
        reveal(Worker::judged);
    }
}

pub proof fn lemma_calmed_alike(
    a: Worker,
    b: Worker,
    s: Searcher,
    t: Searcher,
    node: NodeType,
    alpha: int,
    beta: int,
    ply: int,
    prev: Option<Square>,
    qs_ply: int,
    x: int,
)
    requires
        negamax::alike(a, b, ply),
        negamax::akin(s, t),
        !negamax::ended(a.pos, s.zobrist_trail@, ply),
        calmed(a, s, node, alpha, beta, ply, prev, qs_ply, x),
    ensures
        calmed(b, t, node, alpha, beta, ply, prev, qs_ply, x),
{
    reveal(calmed);
    assert(memory::origin(a, s) == memory::origin(b, t));
    let sp = s.cfg.search_params;
    let d = negamax::told(s.tt, a.pos, ply);
    assert forall|raw: int| #[trigger] a.judged(raw) implies b.judged(raw) by {
        reveal(Worker::judged);
    }
    assert(a.gauged(x) ==> b.gauged(x));
    assert forall|raw: int| #[trigger] quiesce::patted(a, sp, d, raw) == quiesce::patted(b, sp, d, raw) by {}
    assert(quiesce::glanced(a, sp) == quiesce::glanced(b, sp) && quiesce::doubt(a, sp) == quiesce::doubt(b, sp));
}

pub proof fn lemma_razored(w1: Worker, s1: Searcher, cfg: SearchConfig, o: Origin, ctx: NodeCtx, alpha: int, x: int)
    requires
        w1.wf(),
        s1.wf(),
        *s1.cfg == cfg,
        s1.zobrist_trail@ == o.trail,
        ctx.razors(cfg.search_params, alpha),
        heir(w1.pos, cfg, o, ctx.ply as int, height(ctx.entry_depth as int), memory::memory(w1, s1)),
        calmed(w1, s1, ctx.node, alpha, ctx.beta as int, ctx.ply as int, None, 0, x),
    ensures
        x <= alpha ==> razored(w1.pos, cfg, o, ctx, ctx.entry_depth as int, ctx.ply as int, alpha, x),
        x > alpha ==> razor_failed(w1.pos, cfg, o, ctx, ctx.entry_depth as int, ctx.ply as int, alpha),
{
    reveal(razored);
    reveal(razor_failed);
    reveal(heir);
    reveal(calmed);
    assert(x > alpha ==> gets_through(x, alpha + 1));
    assert(enters(w1.pos, cfg, o.trail, w1, s1)) by {
        reveal(enters);
    }
}

pub proof fn lemma_null_cut(
    p: Position,
    cfg: SearchConfig,
    o: Origin,
    ctx: NodeCtx,
    w1: Worker,
    s1: Searcher,
    v: int,
    w2: Worker,
    s2: Searcher,
    y: int,
    x: int,
)
    requires
        ({
            let sp = cfg.search_params;
            let beta = ctx.beta as int;
            let depth = ctx.entry_depth as int;
            let nd = prune::null_depth_spec(depth, ctx.lead(), beta, sp);
            &&& ctx.ply < MAX_PLY && 0 <= nd < depth
            &&& ctx.passable(p)
            &&& !w1.is_nmp_verif
            &&& step::turned(p, w1.pos)
            &&& w1.stack@[ctx.ply as int].moved_pt == PieceType::Empty
            &&& w1.wf() && s1.wf() && *s1.cfg == cfg && s1.zobrist_trail@ == o.trail.push(w1.pos.hash)
            &&& null_score(v, beta, x)
            &&& heir(p, cfg, o, ctx.ply as int, height(ctx.entry_depth as int), memory::memory(w1, s1))
            &&& valued(w1, s1, NodeType::NonPvNode, nd, -beta, -beta + 1, ctx.ply + 1, Move(0), true, -v)
            &&& depth > sp.nmp_verif_min_depth() ==> {
                &&& w2.wf() && s2.wf() && *s2.cfg == cfg && s2.zobrist_trail@ == o.trail
                &&& w2.pos == p && w2.is_nmp_verif
                &&& heir(p, cfg, o, ctx.ply as int, height(ctx.entry_depth as int), memory::memory(w2, s2))
                &&& confirms(y, beta)
                &&& valued(w2, s2, NodeType::NonPvNode, nd, beta - 1, beta, ctx.ply as int, Move(0), false, y)
            }
        }),
    ensures
        null_cut(p, cfg, o, ctx, ctx.entry_depth as int, ctx.ply as int, x),
{
    reveal(null_cut);
    reveal(valued);
    reveal(heir);
    assert(passes(p, cfg, o.trail, w1, s1)) by {
        reveal(passes);
        reveal(enters);
    }
    if ctx.entry_depth > cfg.search_params.nmp_verif_min_depth() {
        assert(enters(p, cfg, o.trail, w2, s2)) by {
            reveal(enters);
        }
    }
}

/// A pass that does not cut.
pub proof fn lemma_null_failed(
    p: Position,
    cfg: SearchConfig,
    o: Origin,
    verifying: bool,
    ctx: NodeCtx,
    after_null: bool,
    w1: Worker,
    s1: Searcher,
    v: int,
    confirmed: Option<int>,
    w2: Worker,
    s2: Searcher,
)
    requires
        ({
            let sp = cfg.search_params;
            let beta = ctx.beta as int;
            let depth = ctx.entry_depth as int;
            let nd = prune::null_depth_spec(depth, ctx.lead(), beta, sp);
            &&& ctx.ply < MAX_PLY && 0 <= nd < depth
            &&& !w1.is_nmp_verif
            &&& step::turned(p, w1.pos)
            &&& w1.stack@[ctx.ply as int].moved_pt == PieceType::Empty
            &&& w1.wf() && s1.wf() && *s1.cfg == cfg && s1.zobrist_trail@ == o.trail.push(w1.pos.hash)
            &&& heir(p, cfg, o, ctx.ply as int, height(ctx.entry_depth as int), memory::memory(w1, s1))
            &&& valued(w1, s1, NodeType::NonPvNode, nd, -beta, -beta + 1, ctx.ply + 1, Move(0), true, -v)
            &&& match confirmed {
                None => no_null_cut(v, beta),
                Some(y) => {
                    &&& depth > sp.nmp_verif_min_depth()
                    &&& w2.wf() && s2.wf() && *s2.cfg == cfg && s2.zobrist_trail@ == o.trail
                    &&& w2.pos == p && w2.is_nmp_verif
                    &&& heir(p, cfg, o, ctx.ply as int, height(ctx.entry_depth as int), memory::memory(w2, s2))
                    &&& stays_below(y, beta)
                    &&& valued(w2, s2, NodeType::NonPvNode, nd, beta - 1, beta, ctx.ply as int, Move(0), false, y)
                },
            }
        }),
    ensures
        null_failed(p, cfg, o, verifying, ctx, ctx.entry_depth as int, ctx.ply as int, after_null),
{
    reveal(null_failed);
    reveal(valued);
    reveal(heir);
    let fell_short = no_null_cut(v, ctx.beta as int);
    assert(passes(p, cfg, o.trail, w1, s1)) by {
        reveal(passes);
        reveal(enters);
    }
    if confirmed is Some {
        assert(enters(p, cfg, o.trail, w2, s2)) by {
            reveal(enters);
        }
    }
}

pub proof fn lemma_prob_cut(
    p: Position,
    cfg: SearchConfig,
    o: Origin,
    verifying: bool,
    ctx: NodeCtx,
    mv: Move,
    x: int,
)
    requires
        ctx.raisable(cfg.search_params),
        x >= ctx.beta + cfg.search_params.probcut_margin(),
        search::may(p, mv),
        mv.captures() || mv.flag() == Move::PROM_Q,
        prunings::worth_it(p, mv, ctx.beta + cfg.search_params.probcut_margin() - ctx.static_eval),
        probed(
            p,
            cfg,
            o,
            verifying,
            mv,
            ctx.entry_depth as int,
            ctx.ply as int,
            ctx.beta + cfg.search_params.probcut_margin(),
            legal::greater(ctx.entry_depth - 4, 1),
            x,
        ),
    ensures
        prob_cut(p, cfg, o, verifying, ctx, ctx.entry_depth as int, ctx.ply as int, x),
        cleared(p, cfg, o, verifying, ctx, ctx.entry_depth as int, ctx.ply as int, x, mv),
{
    reveal(prob_cut);
    reveal(cleared);
    reveal(probed);
}

pub proof fn lemma_filtered(
    p: Position,
    mv: Move,
    w1: Worker,
    s1: Searcher,
    cfg: SearchConfig,
    o: Origin,
    depth: int,
    ply: int,
    raised: int,
    to: Square,
    y: int,
)
    requires
        ply < MAX_PLY,
        search::may(p, mv),
        line::followed(p, mv, w1.pos),
        w1.wf(),
        s1.wf(),
        *s1.cfg == cfg,
        s1.zobrist_trail@ == o.trail.push(w1.pos.hash),
        to == Square(mv.dst() as u8),
        heir(p, cfg, o, ply, height(depth), memory::memory(w1, s1)),
        calmed(w1, s1, NodeType::NonPvNode, -raised, -raised + 1, ply + 1, Some(to), 0, y),
    ensures
        filtered(p, cfg, o, mv, depth, ply, raised, -y),
{
    reveal(filtered);
    reveal(heir);
    reveal(calmed);
    assert(follows(p, cfg, o.trail, mv, w1, s1)) by {
        reveal(follows);
        reveal(enters);
    }
    assert(-(-y) == y);
}

/// A capture that the quiescence search stops.
pub proof fn lemma_stopped(
    p: Position,
    cfg: SearchConfig,
    o: Origin,
    verifying: bool,
    mv: Move,
    depth: int,
    ply: int,
    raised: int,
    shallow: int,
    y: int,
)
    requires
        ply < MAX_PLY,
        y < raised,
        filtered(p, cfg, o, mv, depth, ply, raised, y),
    ensures
        probed(p, cfg, o, verifying, mv, depth, ply, raised, shallow, y),
{
    reveal(probed);
    reveal(filtered);
}

/// A capture that gets through the quiescence search.
pub proof fn lemma_probed(
    p: Position,
    mv: Move,
    w1: Worker,
    s1: Searcher,
    cfg: SearchConfig,
    o: Origin,
    depth: int,
    ply: int,
    raised: int,
    shallow: int,
    y: int,
    x: int,
)
    requires
        ply < MAX_PLY,
        gets_through(y, raised),
        filtered(p, cfg, o, mv, depth, ply, raised, y),
        search::may(p, mv),
        line::followed(p, mv, w1.pos),
        w1.wf(),
        s1.wf(),
        *s1.cfg == cfg,
        s1.zobrist_trail@ == o.trail.push(w1.pos.hash),
        heir(p, cfg, o, ply, height(depth), memory::memory(w1, s1)),
        valued(w1, s1, NodeType::NonPvNode, shallow, -raised, -raised + 1, ply + 1, Move(0), false, x),
    ensures
        probed(p, cfg, o, w1.is_nmp_verif, mv, depth, ply, raised, shallow, -x),
{
    reveal(probed);
    reveal(valued);
    reveal(heir);
    reveal(filtered);
    assert(follows(p, cfg, o.trail, mv, w1, s1)) by {
        reveal(follows);
        reveal(enters);
    }
    assert(-(-x) == x);
}

/// Move `m` was probed and stayed below.
#[verifier::opaque]
pub open spec fn turned_down(
    p: Position,
    cfg: SearchConfig,
    o: Origin,
    verifying: bool,
    m: Move,
    depth: int,
    ply: int,
    raised: int,
    shallow: int,
) -> bool {
    exists|y: int| #[trigger] stays_below(y, raised) && probed(p, cfg, o, verifying, m, depth, ply, raised, shallow, y)
}

pub proof fn lemma_prob_failed(p: Position, cfg: SearchConfig, o: Origin, verifying: bool, ctx: NodeCtx)
    requires
        ({
            let raised = ctx.beta + cfg.search_params.probcut_margin();
            let shallow = legal::greater(ctx.entry_depth - 4, 1);
            ctx.raisable(cfg.search_params) ==> forall|m: Move| #[trigger]
                search::may(p, m) && (m.captures() || m.flag() == Move::PROM_Q) && prunings::worth_it(
                    p,
                    m,
                    raised - ctx.static_eval,
                ) ==> turned_down(p, cfg, o, verifying, m, ctx.entry_depth as int, ctx.ply as int, raised, shallow)
        }),
    ensures
        prob_failed(p, cfg, o, verifying, ctx, ctx.entry_depth as int, ctx.ply as int),
{
    reveal(prob_failed);
    reveal(turned_down);
    reveal(probed);
}

/// Attempts that need not be made.
pub proof fn lemma_spared(
    p: Position,
    cfg: SearchConfig,
    o: Origin,
    verifying: bool,
    ctx: NodeCtx,
    alpha: int,
    after_null: bool,
)
    ensures
        !ctx.razors(cfg.search_params, alpha) ==> razor_failed(p, cfg, o, ctx, ctx.entry_depth as int, ctx.ply as int, alpha),
        after_null || verifying || !ctx.passable(p) ==> null_failed(
            p,
            cfg,
            o,
            verifying,
            ctx,
            ctx.entry_depth as int,
            ctx.ply as int,
            after_null,
        ),
        !ctx.raisable(cfg.search_params) ==> prob_failed(
            p,
            cfg,
            o,
            verifying,
            ctx,
            ctx.entry_depth as int,
            ctx.ply as int,
        ),
{
    reveal(razor_failed);
    reveal(null_failed);
    reveal(prob_failed);
}

pub proof fn lemma_held_out(
    p: Position,
    cfg: SearchConfig,
    o: Origin,
    verifying: bool,
    ctx: NodeCtx,
    alpha: int,
    after_null: bool,
)
    requires
        razor_failed(p, cfg, o, ctx, ctx.entry_depth as int, ctx.ply as int, alpha),
        null_failed(p, cfg, o, verifying, ctx, ctx.entry_depth as int, ctx.ply as int, after_null),
        prob_failed(p, cfg, o, verifying, ctx, ctx.entry_depth as int, ctx.ply as int),
    ensures
        held_out(p, cfg, o, verifying, ctx, ctx.entry_depth as int, ctx.ply as int, alpha, after_null),
{
    reveal(held_out);
    reveal(null_failed);
    reveal(prob_failed);
    reveal(razor_failed);
}

pub proof fn lemma_early(
    p: Position,
    cfg: SearchConfig,
    o: Origin,
    roots: Option<Seq<Move>>,
    verifying: bool,
    ctx: NodeCtx,
    alpha: int,
    after_null: bool,
    x: int,
)
    requires
        if ctx.prunable() && ctx.far_above(cfg.search_params) {
            x == history::quotient(ctx.lead() + ctx.beta, 2)
        } else {
            let depth = ctx.entry_depth as int;
            let ply = ctx.ply as int;
            ||| razored(p, cfg, o, ctx, depth, ply, alpha, x)
            ||| {
                &&& razor_failed(p, cfg, o, ctx, depth, ply, alpha)
                &&& !after_null && !verifying && null_cut(p, cfg, o, ctx, depth, ply, x)
            }
            ||| {
                &&& razor_failed(p, cfg, o, ctx, depth, ply, alpha)
                &&& null_failed(p, cfg, o, verifying, ctx, depth, ply, after_null)
                &&& prob_cut(p, cfg, o, verifying, ctx, depth, ply, x)
            }
            ||| {
                &&& held_out(p, cfg, o, verifying, ctx, depth, ply, alpha, after_null)
                &&& multi_cut(p, cfg, o, verifying, ctx, depth, ply, x) || (barren(p, roots, ctx) && x
                    == barren_score(ctx, alpha))
            }
        },
    ensures
        early(p, cfg, o, roots, verifying, ctx, ctx.entry_depth as int, ctx.ply as int, alpha, after_null, x),
{
    reveal(early);
    reveal(null_cut);
    reveal(null_failed);
    reveal(prob_cut);
    reveal(razored);
    reveal(razor_failed);
    reveal(held_out);
    reveal(multi_cut);
}

pub proof fn lemma_late(
    p: Position,
    cfg: SearchConfig,
    o: Origin,
    roots: Option<Seq<Move>>,
    verifying: bool,
    ctx: NodeCtx,
    alpha: int,
    after_null: bool,
    x: int,
)
    requires
        !(ctx.prunable() && ctx.far_above(cfg.search_params)),
        !barren(p, roots, ctx),
        held_out(p, cfg, o, verifying, ctx, ctx.entry_depth as int, ctx.ply as int, alpha, after_null),
        searched(p, cfg, o, roots, verifying, ctx, ctx.entry_depth as int, ctx.ply as int, alpha, x),
    ensures
        late(p, cfg, o, roots, verifying, ctx, ctx.entry_depth as int, ctx.ply as int, alpha, after_null, x),
{
    reveal(late);
    reveal(held_out);
    reveal(searched);
}

pub proof fn lemma_recorded_alike(
    a: Worker,
    b: Worker,
    s: Searcher,
    t: Searcher,
    node: NodeType,
    depth: int,
    alpha: int,
    beta: int,
    ply: int,
    excluded: Move,
    after_null: bool,
    x: int,
    w1: Worker,
    s1: Searcher,
)
    requires
        negamax::alike(a, b, ply),
        negamax::akin(s, t),
        a.is_nmp_verif == b.is_nmp_verif,
        roots_of(s, ply) == roots_of(t, ply),
        recorded(a, s, node, depth, alpha, beta, ply, excluded, after_null, x, w1, s1),
    ensures
        recorded(b, t, node, depth, alpha, beta, ply, excluded, after_null, x, w1, s1),
{
    reveal(recorded);
    reveal(named);
    assert(memory::origin(a, s) == memory::origin(b, t));
    assert forall|ctx: NodeCtx| outlook(a, s, ctx) == outlook(b, t, ctx) by {}
    lemma_surveyed_alike(a, b, s, t, node, depth, beta, ply, excluded);
}

pub proof fn lemma_valued(
    w0: Worker,
    s0: Searcher,
    node: NodeType,
    depth: int,
    alpha: int,
    beta: int,
    ply: int,
    excluded: Move,
    after_null: bool,
    x: int,
    w1: Worker,
    s1: Searcher,
)
    requires
        !negamax::ended(w0.pos, s0.zobrist_trail@, ply),
        0 < depth,
        ply < MAX_PLY,
        negamax::lower(node, alpha, ply) < negamax::upper(node, beta, ply),
        if negamax::table_cuts(
            s0.tt,
            w0.pos,
            node,
            depth,
            negamax::lower(node, alpha, ply),
            negamax::upper(node, beta, ply),
            ply,
            excluded,
        ) {
            x == negamax::told(s0.tt, w0.pos, ply).score
        } else {
            recorded(
                w0,
                s0,
                node,
                depth,
                negamax::lower(node, alpha, ply),
                negamax::upper(node, beta, ply),
                ply,
                excluded,
                after_null,
                x,
                w1,
                s1,
            )
        },
    ensures
        valued(w0, s0, node, depth, alpha, beta, ply, excluded, after_null, x),
{
    reveal(valued);
    reveal(recorded);
    reveal(early);
    reveal(late);
}

pub proof fn lemma_posed(
    p: Position,
    cfg: SearchConfig,
    o: Origin,
    node: NodeType,
    alpha: int,
    beta: int,
    ply: int,
    prev: Option<Square>,
    qs_ply: int,
    pat: int,
    x: int,
)
    requires
        quiesce::stood(p, cfg.search_params, pat, alpha, beta, x) || (pat < beta && !quiesce::hopeless(
            p,
            cfg.search_params,
            pat,
            legal::greater(pat, alpha),
        ) && replied(p, cfg, o, node, legal::greater(pat, alpha), beta, ply, prev, qs_ply, Some(pat), x)),
    ensures
        posed(p, cfg, o, node, alpha, beta, ply, prev, qs_ply, pat, x),
{
    reveal(posed);
    reveal(replied);
}

/// A quiescence node that the rules and the table leave open.
pub proof fn lemma_calmed(
    w: Worker,
    s: Searcher,
    node: NodeType,
    alpha: int,
    beta: int,
    ply: int,
    prev: Option<Square>,
    qs_ply: int,
    raw: int,
    x: int,
)
    requires
        !negamax::ended(w.pos, s.zobrist_trail@, ply),
        ply < MAX_PLY,
        ({
            let d = negamax::told(s.tt, w.pos, ply);
            let sp = s.cfg.search_params;
            &&& !(node == NodeType::NonPvNode && tt::settles(d.bound, d.score as int, alpha, beta))
            &&& if step::checked(w.pos) {
                if step::stuck(w.pos, Move(0)) {
                    x == ply - MATE
                } else {
                    replied(w.pos, *s.cfg, memory::origin(w, s), node, alpha, beta, ply, prev, qs_ply, None, x)
                }
            } else if d.eval == SCORE_NONE && quiesce::glanced(w, sp) - quiesce::doubt(w, sp) >= beta {
                x == history::quotient(quiesce::glanced(w, sp) + beta, 2)
            } else {
                &&& if d.eval != SCORE_NONE {
                    raw == d.eval
                } else {
                    w.judged(raw)
                }
                &&& posed(
                    w.pos,
                    *s.cfg,
                    memory::origin(w, s),
                    node,
                    alpha,
                    beta,
                    ply,
                    prev,
                    qs_ply,
                    quiesce::patted(w, sp, d, raw),
                    x,
                )
            }
        }),
    ensures
        calmed(w, s, node, alpha, beta, ply, prev, qs_ply, x),
{
    reveal(calmed);
    reveal(posed);
    reveal(replied);
}

/// A node begins with what it was entered with.
pub proof fn lemma_heir_starts(p: Position, cfg: SearchConfig, o: Origin, ply: int, h: int)
    ensures
        heir(p, cfg, o, ply, h, o.memory),
{
    broadcast use {history::lemma_grown_same, memory::lemma_furnished_same};

    reveal(heir);
    reveal(furthered);
    assert(spans(seq![o.memory.tt], o.memory.tt, o.memory.tt));
}

/// What is allowed below a lower level is allowed below a higher one.
pub proof fn lemma_heir_wider(p: Position, cfg: SearchConfig, o: Origin, ply: int, h: int, k: int, m: Memory)
    requires
        heir(p, cfg, o, ply, h, m),
        h <= k,
        0 <= ply,
    ensures
        heir(p, cfg, o, ply, k, m),
{
    lemma_heir_starts(p, cfg, o, ply, k);
    memory::lemma_visits_here(p, o.trail);
    assert(Origin { trail: o.trail, memory: o.memory } == o);
    lemma_heir_goes_on(p, cfg, o, ply, k, o.memory, p, o.trail, ply, h, m);
}

/// Lessons and pawns seen at the node itself.
pub proof fn lemma_heir_learns(p: Position, cfg: SearchConfig, o: Origin, ply: int, h: int, m: Memory, n: Memory)
    requires
        heir(p, cfg, o, ply, h, m),
        n.history.grown(m.history),
        memory::furnished(n.pawn_cache, m.pawn_cache, p),
        memory::shared(n.marks, m.marks, ply),
        n.marks[ply].eval == m.marks[ply].eval,
        n.tt == m.tt,
    ensures
        heir(p, cfg, o, ply, h, n),
{
    broadcast use {history::lemma_grown_further, memory::lemma_furnished_further};

    reveal(heir);
    reveal(furthered);
}

/// The histories of an heir have grown, and its stack is the same below its ply.
pub proof fn lemma_heir_grown(p: Position, cfg: SearchConfig, o: Origin, ply: int, h: int, m: Memory)
    requires
        heir(p, cfg, o, ply, h, m),
    ensures
        m.history.grown(o.memory.history),
        memory::shared(m.marks, o.memory.marks, ply),
{
    reveal(heir);
}

/// A node that was entered with `w` and `s` came to find `f`.
#[verifier::opaque]
pub open spec fn reported(cfg: SearchConfig, w: Worker, s: Searcher, f: Find) -> bool {
    match f.way {
        Way::Moves => {
            &&& surveyed(w, s, f.node, f.depth, f.beta, f.ply, Move(0), f.ctx)
            &&& late(
                w.pos,
                cfg,
                outlook(w, s, f.ctx),
                roots_of(s, f.ply),
                w.is_nmp_verif,
                f.ctx,
                f.depth,
                f.ply,
                f.alpha,
                f.after_null,
                f.x,
            )
            &&& found(
                w.pos,
                cfg,
                outlook(w, s, f.ctx),
                roots_of(s, f.ply),
                w.is_nmp_verif,
                f.ctx,
                f.depth,
                f.ply,
                f.alpha,
                f.x,
                f.mv,
            )
        },
        Way::Capture => {
            &&& surveyed(w, s, f.node, f.depth, f.beta, f.ply, Move(0), f.ctx)
            &&& cleared(w.pos, cfg, outlook(w, s, f.ctx), w.is_nmp_verif, f.ctx, f.depth, f.ply, f.x, f.mv)
        },
        Way::Calm => composed(w, s, f.node, f.alpha, f.beta, f.ply, f.prev, f.qs_ply, f.raw, f.x, f.mv),
    }
}

proof fn lemma_deposited_by(
    p: Position,
    cfg: SearchConfig,
    o: Origin,
    ply: int,
    h: int,
    ts: Seq<TranspositionTable>,
    i: int,
    w: Worker,
    s: Searcher,
    k: int,
    f: Find,
)
    requires
        filed(p, cfg, o, ply, ts, i, ts[i], w, s, k, f),
        lower_down(f, ply, h),
        reported(cfg, w, s, f),
    ensures
        deposited(p, cfg, o, ply, h, ts, i, ts[i]),
{
    reveal(deposited);
    reveal(reported);
    reveal(late);
    reveal(found);
    reveal(cleared);
    reveal(composed);
}

proof fn lemma_deposited_is<'a>(
    p: Position,
    cfg: SearchConfig,
    o: Origin,
    ply: int,
    h: int,
    ts: Seq<TranspositionTable>,
    i: int,
) -> (r: (Worker, Searcher<'a>, int, Find))
    requires
        deposited(p, cfg, o, ply, h, ts, i, ts[i]),
    ensures
        filed(p, cfg, o, ply, ts, i, ts[i], r.0, r.1, r.2, r.3),
        lower_down(r.3, ply, h),
        reported(cfg, r.0, r.1, r.3),
{
    reveal(deposited);
    reveal(reported);
    reveal(late);
    reveal(found);
    reveal(cleared);
    reveal(composed);
    choose|w: Worker, s: Searcher, k: int, f: Find| #[trigger]
        filed(p, cfg, o, ply, ts, i, ts[i], w, s, k, f) && lower_down(f, ply, h) && reported(cfg, w, s, f)
}

/// Each table of `ts` is the one before it with a result stored.
#[verifier::opaque]
pub open spec fn linked(p: Position, cfg: SearchConfig, o: Origin, ply: int, h: int, ts: Seq<TranspositionTable>) -> bool {
    forall|i: int| 1 <= i < ts.len() ==> deposited(p, cfg, o, ply, h, ts, i, #[trigger] ts[i])
}

proof fn lemma_furthered_by(
    p: Position,
    cfg: SearchConfig,
    o: Origin,
    ply: int,
    h: int,
    ts: Seq<TranspositionTable>,
    t: TranspositionTable,
)
    requires
        spans(ts, o.memory.tt, t),
        linked(p, cfg, o, ply, h, ts),
    ensures
        furthered(p, cfg, o, ply, h, t),
{
    reveal(furthered);
    reveal(linked);
    reveal(deposited);
}

proof fn lemma_furthered_is(p: Position, cfg: SearchConfig, o: Origin, ply: int, h: int, t: TranspositionTable) -> (ts: Seq<
    TranspositionTable,
>)
    requires
        furthered(p, cfg, o, ply, h, t),
    ensures
        spans(ts, o.memory.tt, t),
        linked(p, cfg, o, ply, h, ts),
{
    reveal(furthered);
    reveal(linked);
    reveal(deposited);
    choose|ts: Seq<TranspositionTable>| #[trigger] spans(ts, o.memory.tt, t) && linked(p, cfg, o, ply, h, ts)
}

/// What a node has found goes into the table.
pub proof fn lemma_heir_stores(w: Worker, s: Searcher, o: Origin, ply: int, h: int, m: Memory, n: Memory, f: Find)
    requires
        w.wf(),
        s.wf(),
        o.trail == s.zobrist_trail@,
        o.memory.tt == s.tt,
        o.memory.history == w.history,
        o.memory.pawn_cache == w.pawn_cache,
        memory::shared(memory::marks(w.stack@), o.memory.marks, ply),
        heir(w.pos, *s.cfg, o, ply, h, m),
        n.history == m.history,
        n.pawn_cache == m.pawn_cache,
        n.marks == m.marks,
        f.ply == ply,
        ply <= MAX_PLY,
        f.level() < h,
        f.kept(s.cfg.search_params, w.pos, s.tt, m.tt, n.tt),
        reported(*s.cfg, w, s, f),
    ensures
        heir(w.pos, *s.cfg, o, ply, h, n),
{
    broadcast use {history::lemma_grown_same, memory::lemma_furnished_same};

    let p = w.pos;
    let cfg = *s.cfg;
    assert(furthered(p, cfg, o, ply, h, m.tt)) by {
        reveal(heir);
        reveal(furthered);
    }
    let ts = lemma_furthered_is(p, cfg, o, ply, h, m.tt);
    let us = ts.push(n.tt);
    assert(us[0] == ts[0]);
    assert(us.last() == n.tt);
    assert forall|i: int| 1 <= i < us.len() implies deposited(p, cfg, o, ply, h, us, i, #[trigger] us[i]) by {
        if i < ts.len() {
            assert(us[i] == ts[i]);
            assert(deposited(p, cfg, o, ply, h, ts, i, ts[i])) by {
                reveal(linked);
            }
            lemma_deposited_above(p, cfg, o, ply, h, ts, i, p, o, ply, h, us, 0, i);
        } else {
            assert(filed(p, cfg, o, ply, us, i, us[i], w, s, 0, f)) by {
                reveal(filed);
                memory::lemma_visits_here(p, o.trail);
                assert(us[i - 1] == ts.last());
            }
            lemma_deposited_by(p, cfg, o, ply, h, us, i, w, s, 0, f);
        }
    }
    assert(linked(p, cfg, o, ply, h, us)) by {
        reveal(linked);
    }
    lemma_furthered_by(p, cfg, o, ply, h, us, n.tt);
    reveal(heir);
    reveal(furthered);
}

/// A store below a node is a store below the nodes above it, and in a longer sequence.
proof fn lemma_deposited_above(
    q: Position,
    cfg: SearchConfig,
    oq: Origin,
    qply: int,
    hq: int,
    ts: Seq<TranspositionTable>,
    i: int,
    p: Position,
    o: Origin,
    ply: int,
    h: int,
    us: Seq<TranspositionTable>,
    d: int,
    j: int,
)
    requires
        1 <= i < ts.len(),
        0 <= d,
        j == i + d,
        j < us.len(),
        forall|k: int| 0 <= k <= i ==> us[k + d] == #[trigger] ts[k],
        deposited(q, cfg, oq, qply, hq, ts, i, ts[i]),
        (q == p && oq == o && qply == ply && hq == h) || {
            &&& memory::visits(p, o.trail, q, oq.trail, qply - ply)
            &&& oq.memory.history.grown(o.memory.history)
            &&& memory::furnished(oq.memory.pawn_cache, o.memory.pawn_cache, p)
            &&& memory::shared(oq.memory.marks, o.memory.marks, ply)
            &&& qply > ply || (qply == ply && hq <= h)
        },
    ensures
        deposited(p, cfg, o, ply, h, us, j, us[j]),
{
    broadcast use {history::lemma_grown_further, memory::lemma_furnished_further};

    let (w, s, k, f) = lemma_deposited_is(q, cfg, oq, qply, hq, ts, i);
    assert(filed(p, cfg, o, ply, us, j, us[j], w, s, k + d, f)) by {
        reveal(filed);
        assert(us[k + d] == ts[k]);
        assert(us[(i - 1) + d] == ts[i - 1]);
        assert(us[i + d] == ts[i]);
        assert((i - 1) + d == j - 1);
        if !(q == p && oq == o && qply == ply && hq == h) {
            memory::lemma_visits_on(
                p,
                o.trail,
                q,
                oq.trail,
                qply - ply,
                w.pos,
                s.zobrist_trail@,
                f.ply - qply,
            );
            memory::lemma_visits_comes(p, o.trail, q, oq.trail, qply - ply);
            memory::lemma_furnished_above(w.pawn_cache, oq.memory.pawn_cache, p, q);
        }
    }
    lemma_deposited_by(p, cfg, o, ply, h, us, j, w, s, k + d, f);
}

/// What is stored below the node in `q`, which is entered with memory `m`, is stored below the
/// node in `p` above it.
proof fn lemma_furthered_goes_on(
    p: Position,
    cfg: SearchConfig,
    o: Origin,
    ply: int,
    h: int,
    m: Memory,
    q: Position,
    trail: Seq<u64>,
    qply: int,
    hq: int,
    t: TranspositionTable,
)
    requires
        furthered(p, cfg, o, ply, h, m.tt),
        m.history.grown(o.memory.history),
        memory::furnished(m.pawn_cache, o.memory.pawn_cache, p),
        memory::shared(m.marks, o.memory.marks, ply),
        furthered(q, cfg, (Origin { trail, memory: m }), qply, hq, t),
        memory::visits(p, o.trail, q, trail, qply - ply),
        qply > ply || (qply == ply && hq <= h),
    ensures
        furthered(p, cfg, o, ply, h, t),
{
    let oq = Origin { trail, memory: m };
    let xs = lemma_furthered_is(p, cfg, o, ply, h, m.tt);
    let ys = lemma_furthered_is(q, cfg, oq, qply, hq, t);
    let zs = xs + ys.skip(1);
    let d = xs.len() - 1;
    assert forall|k: int| 0 <= k < ys.len() implies zs[k + d] == #[trigger] ys[k] by {
        if k > 0 {
            assert(zs[k + d] == ys.skip(1)[k - 1]);
        }
    }
    assert(zs[0] == xs[0]);
    assert(zs.last() == t) by {
        assert(zs[(ys.len() - 1) + d] == ys[ys.len() - 1]);
    }
    assert forall|i: int| 1 <= i < zs.len() implies deposited(p, cfg, o, ply, h, zs, i, #[trigger] zs[i]) by {
        if i < xs.len() {
            assert(deposited(p, cfg, o, ply, h, xs, i, xs[i])) by {
                reveal(linked);
            }
            lemma_deposited_above(p, cfg, o, ply, h, xs, i, p, o, ply, h, zs, 0, i);
        } else {
            let j = i - d;
            assert(zs[j + d] == ys[j]);
            assert(deposited(q, cfg, oq, qply, hq, ys, j, ys[j])) by {
                reveal(linked);
            }
            lemma_deposited_above(q, cfg, oq, qply, hq, ys, j, p, o, ply, h, zs, d, i);
        }
    }
    assert(linked(p, cfg, o, ply, h, zs)) by {
        reveal(linked);
    }
    lemma_furthered_by(p, cfg, o, ply, h, zs, t);
}

/// Evaluation `e` is that of a node in `p` at `ply` searched since.
#[verifier::opaque]
pub open spec fn reseen(p: Position, cfg: SearchConfig, o: Origin, ply: int, h: int, e: i32) -> bool {
    exists|w: Worker, s: Searcher, ctx: NodeCtx| #[trigger]
        glimpsed(p, cfg, o, ply, w, s, ctx) && e == shown(ctx, memory::marks(w.stack@)) && furthered(
            p,
            cfg,
            o,
            ply,
            h,
            s.tt,
        )
}

/// What makes an heir.
proof fn lemma_heir_is(p: Position, cfg: SearchConfig, o: Origin, ply: int, h: int, m: Memory)
    ensures
        heir(p, cfg, o, ply, h, m) <==> {
            &&& m.history.grown(o.memory.history)
            &&& memory::furnished(m.pawn_cache, o.memory.pawn_cache, p)
            &&& memory::shared(m.marks, o.memory.marks, ply)
            &&& furthered(p, cfg, o, ply, h, m.tt)
            &&& m.marks[ply].eval == o.memory.marks[ply].eval || reseen(p, cfg, o, ply, h, m.marks[ply].eval)
        },
{
    reveal(heir);
    reveal(furthered);
    reveal(reseen);
}

/// What the node in `q`, which is entered with memory `m`, adds, the node in `p` above it has
/// added too.
pub proof fn lemma_heir_goes_on(
    p: Position,
    cfg: SearchConfig,
    o: Origin,
    ply: int,
    h: int,
    m: Memory,
    q: Position,
    trail: Seq<u64>,
    qply: int,
    hq: int,
    n: Memory,
)
    requires
        heir(p, cfg, o, ply, h, m),
        heir(q, cfg, (Origin { trail, memory: m }), qply, hq, n),
        memory::visits(p, o.trail, q, trail, qply - ply),
        qply > ply || (qply == ply && hq <= h),
        0 <= ply,
    ensures
        heir(p, cfg, o, ply, h, n),
{
    broadcast use {history::lemma_grown_further, memory::lemma_furnished_further};

    let oq = Origin { trail, memory: m };
    lemma_heir_is(p, cfg, o, ply, h, m);
    lemma_heir_is(q, cfg, oq, qply, hq, n);
    lemma_heir_is(p, cfg, o, ply, h, n);
    lemma_furthered_goes_on(p, cfg, o, ply, h, m, q, trail, qply, hq, n.tt);
    memory::lemma_visits_comes(p, o.trail, q, trail, qply - ply);
    memory::lemma_furnished_above(n.pawn_cache, m.pawn_cache, p, q);
    let e = n.marks[ply].eval;
    if qply > ply {
        assert(n.marks[ply] == m.marks[ply]);
    } else {
        memory::lemma_visits_none(p, o.trail, q, trail);
        if e != m.marks[ply].eval {
            let (w, s, ctx) = lemma_reseen_is(p, cfg, oq, ply, hq, e);
            lemma_furthered_goes_on(p, cfg, o, ply, h, m, p, trail, ply, hq, s.tt);
            assert(glimpsed(p, cfg, o, ply, w, s, ctx)) by {
                reveal(glimpsed);
            }
            assert(reseen(p, cfg, o, ply, h, e)) by {
                reveal(reseen);
            }
        }
    }
}

proof fn lemma_reseen_is<'a>(p: Position, cfg: SearchConfig, o: Origin, ply: int, h: int, e: i32) -> (r: (
    Worker,
    Searcher<'a>,
    NodeCtx,
))
    requires
        reseen(p, cfg, o, ply, h, e),
    ensures
        glimpsed(p, cfg, o, ply, r.0, r.1, r.2),
        e == shown(r.2, memory::marks(r.0.stack@)),
        furthered(p, cfg, o, ply, h, r.1.tt),
{
    reveal(reseen);
    choose|w: Worker, s: Searcher, ctx: NodeCtx| #[trigger]
        glimpsed(p, cfg, o, ply, w, s, ctx) && e == shown(ctx, memory::marks(w.stack@)) && furthered(
            p,
            cfg,
            o,
            ply,
            h,
            s.tt,
        )
}

/// What is added after a node has marked its evaluation is added to what it was entered with.
pub proof fn lemma_heir_settles(w: Worker, s: Searcher, ply: int, h: int, k: int, ctx: NodeCtx, m: Memory)
    requires
        w.wf(),
        s.wf(),
        surveyed(w, s, ctx.node, ctx.entry_depth as int, ctx.beta as int, ply, ctx.excluded, ctx),
        heir(w.pos, *s.cfg, outlook(w, s, ctx), ply, h, m),
        h <= k,
    ensures
        heir(w.pos, *s.cfg, memory::origin(w, s), ply, k, m),
{
    broadcast use {history::lemma_grown_same, memory::lemma_furnished_same};

    let p = w.pos;
    let cfg = *s.cfg;
    let o = memory::origin(w, s);
    let oq = outlook(w, s, ctx);
    assert(0 <= ctx.ply == ply < MAX_PLY) by {
        reveal(surveyed);
    }
    lemma_heir_starts(p, cfg, o, ply, k);
    lemma_heir_is(p, cfg, o, ply, k, o.memory);
    lemma_heir_is(p, cfg, o, ply, k, oq.memory);
    assert(glimpsed(p, cfg, o, ply, w, s, ctx)) by {
        reveal(glimpsed);
        reveal(enters);
    }
    assert(reseen(p, cfg, o, ply, k, oq.memory.marks[ply].eval)) by {
        reveal(reseen);
    }
    memory::lemma_visits_here(p, o.trail);
    assert(oq == Origin { trail: o.trail, memory: oq.memory });
    lemma_heir_goes_on(p, cfg, o, ply, k, oq.memory, p, o.trail, ply, h, m);
}

/// Standing pat is a floor: a quiescence node that is not in check, and that neither the
/// rules nor the table settle, scores no less than its evaluation, or than beta where that is
/// lower.
pub proof fn law_standing_pat_is_a_floor(
    w: Worker,
    s: Searcher,
    node: NodeType,
    alpha: int,
    beta: int,
    ply: int,
    prev: Option<Square>,
    qs_ply: int,
    x: int,
)
    requires
        calmed(w, s, node, alpha, beta, ply, prev, qs_ply, x),
        ply < MAX_PLY,
        !negamax::ended(w.pos, s.zobrist_trail@, ply),
        !step::checked(w.pos),
        ({
            let d = negamax::told(s.tt, w.pos, ply);
            d.eval != SCORE_NONE && !tt::settles(d.bound, d.score as int, alpha, beta)
        }),
    ensures
        ({
            let d = negamax::told(s.tt, w.pos, ply);
            let pat = quiesce::patted(w, s.cfg.search_params, d, d.eval as int);
            x >= legal::lesser(pat, beta)
        }),
{
    reveal(calmed);
    reveal(posed);
    reveal(replied);
}

/// What is no scout, or has a move set aside, is settled early only where it has no move.
proof fn lemma_settled_without_moves(
    p: Position,
    cfg: SearchConfig,
    o: Origin,
    roots: Option<Seq<Move>>,
    verifying: bool,
    ctx: NodeCtx,
    depth: int,
    ply: int,
    alpha: int,
    after_null: bool,
    x: int,
)
    requires
        early(p, cfg, o, roots, verifying, ctx, depth, ply, alpha, after_null, x),
        ctx.node != NodeType::NonPvNode || ctx.excluded.0 != 0,
    ensures
        x == barren_score(ctx, alpha),
{
    assert(!ctx.prunable());
    assert(!razored(p, cfg, o, ctx, depth, ply, alpha, x)) by {
        reveal(razored);
    }
    assert(!null_cut(p, cfg, o, ctx, depth, ply, x)) by {
        reveal(null_cut);
    }
    assert(!prob_cut(p, cfg, o, verifying, ctx, depth, ply, x)) by {
        reveal(prob_cut);
        reveal(cleared);
    }
    assert(!multi_cut(p, cfg, o, verifying, ctx, depth, ply, x)) by {
        reveal(multi_cut);
    }
    reveal(early);
    reveal(razored);
    reveal(null_cut);
    reveal(prob_cut);
    reveal(multi_cut);
}

/// With its only legal move set aside, a node that gets past its door fails low to alpha.
pub proof fn law_only_move_set_aside_fails_low(
    w: Worker,
    s: Searcher,
    node: NodeType,
    depth: int,
    alpha: int,
    beta: int,
    ply: int,
    excluded: Move,
    after_null: bool,
    x: int,
)
    requires
        valued(w, s, node, depth, alpha, beta, ply, excluded, after_null, x),
        negamax::passed_door(w, s, node, depth, alpha, beta, ply, excluded),
        ply > 0,
        excluded.0 != 0,
        step::stuck(w.pos, excluded),
    ensures
        x == negamax::lower(node, alpha, ply),
{
    let lo = negamax::lower(node, alpha, ply);
    let hi = negamax::upper(node, beta, ply);
    let p = w.pos;
    let roots = roots_of(s, ply);
    reveal(valued);
    reveal(early);
    reveal(late);
    let ctx = choose|ctx: NodeCtx| #[trigger]
        surveyed(w, s, node, depth, hi, ply, excluded, ctx) && (early(
            p,
            *s.cfg,
            outlook(w, s, ctx),
            roots,
            w.is_nmp_verif,
            ctx,
            depth,
            ply,
            lo,
            after_null,
            x,
        ) || late(
            p,
            *s.cfg,
            outlook(w, s, ctx),
            roots,
            w.is_nmp_verif,
            ctx,
            depth,
            ply,
            lo,
            after_null,
            x,
        ));
    let o = outlook(w, s, ctx);
    reveal(surveyed);
    assert(!late(p, *s.cfg, o, roots, w.is_nmp_verif, ctx, depth, ply, lo, after_null, x));
    lemma_settled_without_moves(p, *s.cfg, o, roots, w.is_nmp_verif, ctx, depth, ply, lo, after_null, x);
}

/// Off the scouts, a node below the root without a legal move is mated if it is in check and a
/// draw otherwise, whatever the table says.
pub proof fn law_mate_and_stalemate(
    w: Worker,
    s: Searcher,
    depth: int,
    alpha: int,
    beta: int,
    ply: int,
    after_null: bool,
    x: int,
)
    requires
        valued(w, s, NodeType::PvNode, depth, alpha, beta, ply, Move(0), after_null, x),
        negamax::passed_door(w, s, NodeType::PvNode, depth, alpha, beta, ply, Move(0)),
        ply > 0,
        step::stuck(w.pos, Move(0)),
    ensures
        x == (if step::checked(w.pos) {
            ply - MATE
        } else {
            0
        }),
{
    let lo = negamax::lower(NodeType::PvNode, alpha, ply);
    let hi = negamax::upper(NodeType::PvNode, beta, ply);
    let p = w.pos;
    let roots = roots_of(s, ply);
    reveal(valued);
    reveal(early);
    reveal(late);
    let ctx = choose|ctx: NodeCtx| #[trigger]
        surveyed(w, s, NodeType::PvNode, depth, hi, ply, Move(0), ctx) && (early(
            p,
            *s.cfg,
            outlook(w, s, ctx),
            roots,
            w.is_nmp_verif,
            ctx,
            depth,
            ply,
            lo,
            after_null,
            x,
        ) || late(
            p,
            *s.cfg,
            outlook(w, s, ctx),
            roots,
            w.is_nmp_verif,
            ctx,
            depth,
            ply,
            lo,
            after_null,
            x,
        ));
    let o = outlook(w, s, ctx);
    reveal(surveyed);
    assert(!late(p, *s.cfg, o, roots, w.is_nmp_verif, ctx, depth, ply, lo, after_null, x));
    lemma_settled_without_moves(p, *s.cfg, o, roots, w.is_nmp_verif, ctx, depth, ply, lo, after_null, x);
}

/// No reduced search decides for a move: what brings more than alpha was searched to full depth,
/// and what lies inside the window was searched with the full window.
pub proof fn law_a_surprise_is_searched_in_full(
    p: Position,
    q: Position,
    mv: Move,
    cfg: SearchConfig,
    o: Origin,
    verifying: bool,
    parent: NodeType,
    beta: int,
    depth: int,
    ply: int,
    full: int,
    cut: int,
    first: bool,
    alpha: int,
    v: int,
)
    requires
        sought(p, q, mv, cfg, o, verifying, parent, beta, depth, ply, full, cut, first, alpha, v),
        cut >= 0,
        v > alpha,
    ensures
        ({
            let lo = legal::lesser(alpha, WINDOW - 1);
            let hi = legal::lesser(beta, WINDOW as int);
            ||| brings(p, q, mv, cfg, o, verifying, depth, ply, parent.next(), full, -hi, -lo, v)
            ||| v >= beta && brings(p, q, mv, cfg, o, verifying, depth, ply, NodeType::NonPvNode, full, -lo - 1, -lo, v)
        }),
{
    reveal(sought);
    reveal(brings);
    let lo = legal::lesser(alpha, WINDOW - 1);
    let scout = NodeType::NonPvNode;
    if !first {
        let (x, y) = choose|x: int, y: int| #[trigger]
            settled_by(cut, alpha, beta, x, y, v) && {
                &&& brings(p, q, mv, cfg, o, verifying, depth, ply, scout, full - cut, -lo - 1, -lo, x)
                &&& surprises(cut, alpha, x) ==> brings(p, q, mv, cfg, o, verifying, depth, ply, scout, full, -lo - 1, -lo, y)
                &&& alpha < y < beta ==> brings(
                    p,
                    q,
                    mv,
                    cfg,
                    o,
                    verifying,
                    depth,
                    ply,
                    parent.next(),
                    full,
                    -legal::lesser(beta, WINDOW as int),
                    -lo,
                    v,
                )
            };
        assert(settled_by(cut, alpha, beta, x, y, v));
        if !(alpha < y < beta) && !surprises(cut, alpha, x) {
            assert(full - cut == full);
        }
    }
}

/// A score that settles a node past its prunings is the negated score of a node behind one of
/// its moves, and no move searched brings more.
pub proof fn law_score_is_the_best_of_the_moves(
    p: Position,
    cfg: SearchConfig,
    o: Origin,
    roots: Option<Seq<Move>>,
    verifying: bool,
    ctx: NodeCtx,
    depth: int,
    ply: int,
    alpha: int,
    x: int,
) -> (log: Seq<(Move, int)>)
    requires
        searched(p, cfg, o, roots, verifying, ctx, depth, ply, alpha, x),
    ensures
        log.len() > 0,
        forall|i: int| 0 <= i < log.len() ==> (#[trigger] log[i]).1 <= x && search::may(p, log[i].0),
        exists|k: int, mv: Move| 0 <= k < log.len() && #[trigger] heads(log, k, x, mv),
        x < ctx.beta && roots is None ==> forall|m: Move| #[trigger]
            search::may(p, m) && m != ctx.excluded ==> logged(log, m) || skipped(
                p,
                cfg,
                o,
                ctx,
                ctx.loop_depth(cfg.search_params),
                alpha,
                log,
                m,
            ),
{
    reveal(searched);
    reveal(looped);
    reveal(tried);
    reveal(ran);
    let (log, mv) = choose|log: Seq<(Move, int)>, mv: Move| #[trigger]
        tops(None, log, x, mv) && looped(p, cfg, o, roots, verifying, ctx, depth, ply, alpha, log, x);
    assert(tops(None, log, x, mv));
    log
}

/// A position below the root that stood on the board before, any number of plies ago since the
/// last capture or pawn move, is scored as a draw, within one of zero, whatever the table says
/// and however deep it would have been searched. So is one after a hundred such plies.
pub proof fn law_a_repetition_is_scored_as_a_draw(
    w: Worker,
    s: Searcher,
    node: NodeType,
    depth: int,
    alpha: int,
    beta: int,
    ply: int,
    excluded: Move,
    after_null: bool,
    x: int,
    ago: int,
)
    requires
        valued(w, s, node, depth, alpha, beta, ply, excluded, after_null, x) || calmed(
            w,
            s,
            node,
            alpha,
            beta,
            ply,
            None,
            0,
            x,
        ),
        w.pos.halfmove_clock >= 100 || {
            &&& ply > 0
            &&& 1 <= ago <= w.pos.halfmove_clock
            &&& ago < s.zobrist_trail@.len()
            &&& s.zobrist_trail@[s.zobrist_trail@.len() - 1 - ago] == w.pos.hash
        },
    ensures
        -1 <= x <= 1,
{
    if w.pos.halfmove_clock < 100 {
        search::law_a_key_that_stood_before_is_a_repetition(
            s.zobrist_trail@,
            w.pos.halfmove_clock as int,
            w.pos.hash,
            ago,
        );
    }
    reveal(valued);
    reveal(calmed);
}

/// Four plies that move two men out and back again, without a capture or pawn move, lead to a
/// draw: the position stood on the board four plies ago.
pub proof fn law_a_shuffle_is_a_draw(ps: Seq<Position>, ms: Seq<Move>, trail: Seq<u64>, ply: int)
    requires
        ps.len() == 5,
        ms.len() == 4,
        forall|i: int| 0 <= i < 4 ==> line::followed(ps[i], #[trigger] ms[i], ps[i + 1]),
        forall|i: int|
            0 <= i < 4 ==> !(#[trigger] ms[i]).captures() && ps[i].board()[ms[i].src()]->0.kind != PieceType::Pawn,
        ps[0].halfmove_clock < 1000,
        ps[4].hash == ps[0].hash,
        ply > 0,
    ensures
        negamax::ended(
            ps[4],
            trail.push(ps[0].hash).push(ps[1].hash).push(ps[2].hash).push(ps[3].hash).push(ps[4].hash),
            ply,
        ),
{
    let t = trail.push(ps[0].hash).push(ps[1].hash).push(ps[2].hash).push(ps[3].hash).push(ps[4].hash);
    reveal(line::followed);
    assert(line::followed(ps[0], ms[0], ps[1]) && line::followed(ps[1], ms[1], ps[2]));
    assert(line::followed(ps[2], ms[2], ps[3]) && line::followed(ps[3], ms[3], ps[4]));
    assert(ps[4].halfmove_clock == ps[0].halfmove_clock + 4);
    assert(t[t.len() - 1 - 4] == ps[0].hash);
    search::law_a_key_that_stood_before_is_a_repetition(t, ps[4].halfmove_clock as int, ps[4].hash, 4);
}

/// Alpha is lifted to the best score, never lowered, and to no score that no move brought.
pub proof fn law_alpha_rises_to_the_best_score(alpha: int, log: Seq<(Move, int)>)
    ensures
        peak(alpha, log) >= alpha,
        forall|i: int| 0 <= i < log.len() ==> peak(alpha, log) >= (#[trigger] log[i]).1,
        peak(alpha, log) == alpha || exists|i: int| 0 <= i < log.len() && peak(alpha, log) == (#[trigger] log[i]).1,
    decreases log.len(),
{
    if log.len() > 0 {
        let l = log.drop_last();
        law_alpha_rises_to_the_best_score(alpha, l);
        assert forall|i: int| 0 <= i < log.len() implies peak(alpha, log) >= (#[trigger] log[i]).1 by {
            if i < l.len() {
                assert(l[i] == log[i]);
            }
        }
        if peak(alpha, log) == log.last().1 {
            assert(log[log.len() - 1] == log.last());
        } else if peak(alpha, l) != alpha {
            let i = choose|i: int| 0 <= i < l.len() && peak(alpha, l) == (#[trigger] l[i]).1;
            assert(log[i] == l[i]);
        }
    }
}

/// A node's score is that of one of its moves, or its floor, and no move of it scores more.
pub proof fn law_a_score_is_the_best_of_its_moves(floor: Option<int>, log: Seq<(Move, int)>, x: int, mv: Move, y: int, m: Move)
    requires
        tops(floor, log, x, mv),
        tops(floor, log, y, m),
    ensures
        x == y && m == mv,
        floor == Some(x) || log.contains((mv, x)),
        forall|i: int| 0 <= i < log.len() ==> (#[trigger] log[i]).1 <= x,
{
    if floor != Some(x) {
        let k = choose|k: int| 0 <= k < log.len() && #[trigger] heads(log, k, x, mv);
        assert(log[k] == (mv, x));
        if floor != Some(y) {
            let j = choose|j: int| 0 <= j < log.len() && #[trigger] heads(log, j, y, m);
            assert(log[j] == (m, y));
            assert(log[k].1 <= y && log[j].1 <= x);
        }
    } else if floor != Some(y) {
        let j = choose|j: int| 0 <= j < log.len() && #[trigger] heads(log, j, y, m);
        assert(log[j] == (m, y));
    }
}

/// The quiescence search leaves out what loses material, and follows every exchange that does
/// not as long as it is shallow, and on the square of the last capture however deep.
pub proof fn law_quiescence_follows_exchanges(p: Position, sp: SearchParams, prev: Option<Square>, qs_ply: int, m: Move)
    ensures
        !m.castles() && see::exchange(p, m) < 0 ==> left_out(p, sp, prev, qs_ply, m),
        !m.castles() && see::exchange(p, m) >= 0 && qs_ply < sp.qs_recapture_ply() ==> !left_out(p, sp, prev, qs_ply, m),
        !m.castles() && see::exchange(p, m) >= 0 && (prev matches Some(t) && t.at() == m.dst()) ==> !left_out(
            p,
            sp,
            prev,
            qs_ply,
            m,
        ),
        !m.castles() && see::exchange(p, m) >= 0 && prev is None ==> !left_out(p, sp, prev, qs_ply, m),
        qs_ply >= sp.qs_recapture_ply() && (prev matches Some(t) && t.at() != m.dst()) ==> left_out(p, sp, prev, qs_ply, m),
{
}

/// A node is pruned as a whole only as a scout, off checks, and with no move set aside; never for
/// a mate score; and one that stands far above beta stands there by at least the margin.
pub proof fn law_what_may_be_pruned_as_a_whole(ctx: NodeCtx, sp: SearchParams, alpha: int, p: Position)
    ensures
        ctx.in_check || ctx.node != NodeType::NonPvNode || ctx.excluded.0 != 0 ==> !ctx.prunable() && !ctx.razors(sp, alpha)
            && !ctx.passable(p) && !ctx.raisable(sp),
        defs::wins(ctx.lead()) || defs::loses(ctx.lead()) ==> !ctx.far_above(sp),
        defs::wins(ctx.beta as int) || defs::loses(ctx.beta as int) ==> !ctx.raisable(sp),
        ctx.far_above(sp) ==> ctx.lead() >= ctx.beta + prune::rfp_span(ctx.entry_depth as int, ctx.improving, sp),
        ctx.entry_depth > sp.rfp_depth() ==> !ctx.far_above(sp),
        ctx.lead() < ctx.beta ==> !ctx.passable(p),
        (forall|y: int| !#[trigger] state::piece_on(p.board(), p.stm, y)) ==> !ctx.passable(p),
        ctx.razors(sp, alpha) ==> ctx.razors(sp, alpha + 1),
        ctx.entry_depth > sp.razoring_depth() ==> !ctx.razors(sp, alpha),
        ctx.entry_depth < sp.probcut_depth_min() ==> !ctx.raisable(sp),
        ctx.node == NodeType::NonPvNode && !ctx.in_check && ctx.excluded.0 == 0 ==> ctx.prunable(),
{
}

/// A check deepens the search by a ply; a node for which the table names a move is searched to
/// the depth it was entered with, and one that is deep and has none gives up some of it.
pub proof fn law_checks_deepen_and_unknown_nodes_are_shallower(a: NodeCtx, b: NodeCtx, sp: SearchParams)
    requires
        sp.wf(),
        a.entry_depth == b.entry_depth,
    ensures
        !a.in_check && a.tt_move is Some ==> a.loop_depth(sp) == a.entry_depth,
        a.in_check && a.tt_move is Some ==> a.loop_depth(sp) == a.entry_depth + 1,
        a.in_check == b.in_check && a.tt_move is None && b.tt_move is Some && b.loop_depth(sp) >= sp.iir_depth()
            ==> a.loop_depth(sp) + sp.iir_reduction() == b.loop_depth(sp),
        a.in_check == b.in_check && a.tt_move is None && b.tt_move is Some && b.loop_depth(sp) < sp.iir_depth()
            ==> a.loop_depth(sp) == b.loop_depth(sp),
{
}

/// Only the table's own move is asked whether it stands alone, when the table is sure of it and
/// knows of no mate; and the window it is held against lies below its score by the margin of the
/// depth, short of the mates.
pub proof fn law_the_tables_move_is_held_against_a_lower_window(ctx: NodeCtx, sp: SearchParams, mv: Move, depth: int)
    requires
        sp.wf(),
        depth >= 0,
        -defs::MATE_BOUND <= ctx.tt.score,
    ensures
        ctx.asks_alone(sp, mv, depth) ==> ctx.tt_move == Some(mv) && ctx.tt.bound != Bound::Upper && ctx.excluded.0 == 0 && depth
            >= sp.singext_min_depth() && ctx.tt.depth + sp.singext_tt_depth() >= depth && ctx.node == NodeType::NonPvNode,
        ctx.alone_beta(sp, depth) <= ctx.tt.score,
        ctx.alone_beta(sp, depth) >= -defs::MATE_BOUND,
        ctx.tt.score - depth * sp.singext_margin() >= -defs::MATE_BOUND ==> ctx.tt.score - ctx.alone_beta(sp, depth) == depth
            * sp.singext_margin(),
{
    let m = sp.singext_margin() as int;
    assert(depth * m >= 0) by (nonlinear_arith)
        requires
            depth >= 0,
            m >= 0,
    ;
}

/// A pass that beats beta scores no mate that it has not proved, and never less than beta; and it
/// cuts where it beats beta, but for a lost score.
pub proof fn law_a_pass_cuts_at_beta(v: int, beta: int, x: int)
    requires
        !defs::wins(beta) && !defs::loses(beta),
    ensures
        null_score(v, beta, x) ==> beta <= x <= v && !defs::wins(x),
        null_score(v, beta, x) ==> !no_null_cut(v, beta),
        v >= beta ==> !no_null_cut(v, beta) && exists|y: int| null_score(v, beta, y),
        v < beta ==> no_null_cut(v, beta),
        v >= beta && !defs::wins(v) && null_score(v, beta, x) ==> x == v,
{
    if v >= beta {
        assert(null_score(v, beta, if defs::wins(v) {
            beta
        } else {
            v
        }));
    }
}

/// A node that reaches beta without the table's move scores at least beta, and no mate that the
/// search without it has not proved.
pub proof fn law_two_good_moves_cut_at_beta(y: int, beta: int, x: int)
    requires
        !defs::wins(beta) && !defs::loses(beta),
        multi_score(y, beta, x),
    ensures
        beta <= x <= y,
        !defs::wins(x) && !defs::loses(x),
        !defs::wins(y) ==> x == y,
{
}

/// A scout that fails low settles its move, at whatever depth; only a reduced one that fails high
/// is tried again; and one inside the window gives way to a full search.
pub proof fn law_scouts_that_fail_low_settle_their_move(cut: int, alpha: int, beta: int, x: int, y: int, v: int)
    requires
        settled_by(cut, alpha, beta, x, y, v),
    ensures
        x <= alpha ==> y == x && v == x,
        cut <= 0 ==> y == x,
        cut <= 0 && x >= beta ==> v == x,
        y <= alpha || y >= beta ==> v == y,
{
}

/// A move that gives check is reduced by less, never by less than nothing, and any other by all.
pub proof fn law_checks_are_reduced_less(cfg: SearchConfig, q: Position, cut: int)
    requires
        cfg.wf(),
        cut >= 0,
    ensures
        0 <= eased(cfg, q, cut) <= cut,
        !step::checked(q) ==> eased(cfg, q, cut) == cut,
        step::checked(q) && cut > 0 ==> eased(cfg, q, cut) < cut,
        step::checked(q) && cut >= cfg.search_params.check_lmr_bonus() ==> eased(cfg, q, cut) + cfg.search_params.check_lmr_bonus()
            == cut,
{
}

/// Without a move to play the side in check is mated, the sooner the worse, and the other is
/// stalemated.
pub proof fn law_without_moves_it_is_mate_or_stalemate(a: NodeCtx, b: NodeCtx, alpha: int)
    requires
        a.excluded.0 == 0 && b.excluded.0 == 0,
        a.in_check && b.in_check,
    ensures
        barren_score(NodeCtx { in_check: false, ..a }, alpha) == 0,
        a.ply < b.ply ==> barren_score(a, alpha) < barren_score(b, alpha),
        barren_score(a, alpha) + MATE == a.ply,
{
}

/// A node is razored where the evaluation and the margin of its depth together fall short of
/// alpha, and stands far above beta where the lead exceeds it by the margin of its depth.
pub proof fn law_margins_decide_at_their_ends(ctx: NodeCtx, sp: SearchParams, alpha: int)
    requires
        ctx.prunable(),
    ensures
        ctx.entry_depth <= sp.razoring_depth() && ctx.static_eval + sp.razoring_margin() * ctx.entry_depth == alpha - 1 ==> ctx.razors(
            sp,
            alpha,
        ),
        ctx.static_eval + sp.razoring_margin() * ctx.entry_depth == alpha ==> !ctx.razors(sp, alpha),
        ctx.entry_depth <= sp.rfp_depth() && !defs::wins(ctx.lead()) && !defs::loses(ctx.lead()) && ctx.lead() == ctx.beta
            + prune::rfp_span(ctx.entry_depth as int, ctx.improving, sp) ==> ctx.far_above(sp),
        ctx.lead() + 1 == ctx.beta + prune::rfp_span(ctx.entry_depth as int, ctx.improving, sp) ==> !ctx.far_above(sp),
        ctx.entry_depth >= sp.probcut_depth_min() && !defs::wins(ctx.beta as int) && !defs::loses(ctx.beta as int)
            ==> ctx.raisable(sp),
{
}

} // verus!
