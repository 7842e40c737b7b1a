//! The move loops of the nodes: what is searched, how deep, and what is learned from it.

use vstd::prelude::*;

use crate::chess::bitboard::Bitboard;
use crate::chess::census;
use crate::chess::defs::{is_mate, INF, MATE_BOUND, MAX_PLY};
use crate::chess::legal;
use crate::chess::moves::Move;
use crate::chess::position::Position;
use crate::chess::spatial;
use crate::chess::types::{PieceType, Square};
use crate::engine::config::{self, SearchConfig, LMR_SCALE};
use crate::engine::history::{self, ContContext, History};
use crate::engine::line;
use crate::engine::memory::{self, Origin};
use crate::engine::movepicker::{self, MovePicker};
use crate::engine::negamax;
use crate::engine::prune::{self, disgraced, futile, history_bonus, late, reduction, see_margin};
use crate::engine::prunings;
use crate::engine::search::{
    self, MoveResult, NodeCtx, NodeType, RootMove, SearchAborted, Searcher, Stack, Worker, STACK_SIZE, WINDOW,
};
use crate::engine::search_params::SearchParams;
use crate::engine::see;
use crate::engine::step;
use crate::engine::tt::Bound;
use crate::engine::value;

verus! {

broadcast use {
    crate::engine::history::lemma_grown_same,
    crate::engine::history::lemma_grown_further,
    crate::engine::memory::lemma_furnished_same,
    crate::engine::memory::lemma_furnished_further,
};

/// The most quiet moves a node remembers for its history update.
pub const MAX_TRACKED_QUIETS: usize = 256;

/// The most captures a node remembers for its history update.
pub const MAX_TRACKED_CAPTURES: usize = 64;

/// What the move loop of a node comes to.
pub enum LoopEnd {
    /// The moves were searched.
    Searched(MoveResult),
    /// A verification cleared beta without the table's move.
    Cut(i32),
}

impl Worker {
    /// Principal variation search below the root and inside: a full window for the first
    /// move, a zero-width scout for the rest, and a full window again where a scout
    /// surprises. The board already has the move on it.
    pub(crate) fn pvs(
        &mut self,
        s: &mut Searcher,
        ctx: &NodeCtx,
        depth: i32,
        alpha: i32,
        is_first: bool,
        cut: i32,
        extension: i32,
        mv: Move,
        Ghost(p): Ghost<Position>,
        Ghost(o): Ghost<Origin>,
    ) -> (r: Result<i32, SearchAborted>)
        requires
            old(self).wf(),
            old(s).wf(),
            ctx.ply < MAX_PLY,
            1 <= ctx.entry_depth <= 250 + ctx.ply,
            negamax::opened(alpha as int, ctx.beta as int, ctx.ply as int),
            -10 <= depth <= 251 + ctx.ply,
            0 <= cut <= 5000,
            0 <= extension <= 1,
            memory::stepped(p, old(self).pos),
            memory::carried(memory::marks(old(self).stack@), p, mv, ctx.ply as int),
            old(s).zobrist_trail@ == o.trail.push(old(self).pos.hash),
            value::heir(
                p,
                *old(s).cfg,
                o,
                ctx.ply as int,
                value::height(ctx.entry_depth as int),
                memory::memory(*old(self), *old(s)),
            ),
        ensures
            value::heir(
                p,
                *old(s).cfg,
                o,
                ctx.ply as int,
                value::height(ctx.entry_depth as int),
                memory::memory(*final(self), *final(s)),
            ),
            final(self).back(*old(self), ctx.ply + 1),
            final(self).lined(ctx.ply + 1),
            final(s).wf(),
            final(s).calm(*old(s)),
            negamax::answered(r, *old(s), *final(s), ctx.ply + 1),
            r matches Ok(v) ==> value::sought(
                p,
                old(self).pos,
                mv,
                *old(s).cfg,
                o,
                old(self).is_nmp_verif,
                ctx.node,
                ctx.beta as int,
                ctx.entry_depth as int,
                ctx.ply as int,
                depth - 1 + extension,
                cut as int,
                is_first,
                alpha as int,
                v as int,
            ),
            // A position that is drawn by rule is a draw, however it is searched.
            negamax::ended(old(self).pos, old(s).zobrist_trail@, ctx.ply + 1) ==> (r matches Ok(x) ==> x == 1 || x == -1),
        decreases MAX_PLY + 1 - ctx.ply, ctx.entry_depth, 7int,
    {
        let ply: usize = ctx.ply;
        let beta: i32 = ctx.beta;
        let search_depth: i32 = depth - 1 + extension;
        // The root's window may be wider than any score.
        let lo: i32 = if alpha < WINDOW {
            alpha
        } else {
            WINDOW - 1
        };
        let hi: i32 = if beta < WINDOW {
            beta
        } else {
            WINDOW
        };
        let ghost cfg = *s.cfg;
        let ghost verifying = self.is_nmp_verif;
        let ghost q = self.pos;
        if is_first {
            let v: i32 = self.look(
                s,
                ctx.node.next(),
                search_depth,
                -hi,
                -lo,
                ply,
                Ghost(p),
                Ghost(mv),
                Ghost(o),
                Ghost(ctx.entry_depth as int),
            )?;
            proof {
                value::lemma_sought_first(
                    p,
                    q,
                    mv,
                    cfg,
                    o,
                    verifying,
                    ctx.node,
                    beta as int,
                    ctx.entry_depth as int,
                    ply as int,
                    search_depth as int,
                    cut as int,
                    alpha as int,
                    v as int,
                );
            }
            return Ok(v);
        }
        let reduced_depth: i32 = search_depth - cut;
        let x: i32 = self.look(
            s,
            NodeType::NonPvNode,
            reduced_depth,
            -lo - 1,
            -lo,
            ply,
            Ghost(p),
            Ghost(mv),
            Ghost(o),
            Ghost(ctx.entry_depth as int),
        )?;
        let mut score: i32 = x;
        if score > alpha && cut > 0 {
            score = self.look(
                s,
                NodeType::NonPvNode,
                search_depth,
                -lo - 1,
                -lo,
                ply,
                Ghost(p),
                Ghost(mv),
                Ghost(o),
                Ghost(ctx.entry_depth as int),
            )?;
            // The reduced scout promised something: the history learns whether it held.
            if mv.is_history_quiet() && (score <= alpha || score >= beta) {
                let ghost wl = *self;
                self.learn_continuation(s.cfg, ply, depth, score <= alpha);
                proof {
                    value::lemma_heir_learns(
                        p,
                        cfg,
                        o,
                        ply as int,
                        value::height(ctx.entry_depth as int),
                        memory::memory(wl, *s),
                        memory::memory(*self, *s),
                    );
                }
            }
        }
        let mut v: i32 = score;
        if score > alpha && score < beta {
            v = self.look(
                s,
                ctx.node.next(),
                search_depth,
                -hi,
                -lo,
                ply,
                Ghost(p),
                Ghost(mv),
                Ghost(o),
                Ghost(ctx.entry_depth as int),
            )?;
        }
        proof {
            value::lemma_sought_later(
                p,
                q,
                mv,
                cfg,
                o,
                verifying,
                ctx.node,
                beta as int,
                ctx.entry_depth as int,
                ply as int,
                search_depth as int,
                cut as int,
                alpha as int,
                x as int,
                score as int,
                v as int,
            );
        }
        Ok(v)
    }

    /// Searches the node one ply below `ply`, and says what it brings there.
    pub(crate) fn look(
        &mut self,
        s: &mut Searcher,
        node: NodeType,
        depth: i32,
        alpha: i32,
        beta: i32,
        ply: usize,
        Ghost(p): Ghost<Position>,
        Ghost(mv): Ghost<Move>,
        Ghost(o): Ghost<Origin>,
        Ghost(entry): Ghost<int>,
    ) -> (r: Result<i32, SearchAborted>)
        requires
            old(self).wf(),
            old(s).wf(),
            ply < MAX_PLY,
            node != NodeType::RootNode,
            negamax::opened(alpha as int, beta as int, ply + 1),
            -10_000 <= depth <= 251 + ply,
            memory::stepped(p, old(self).pos),
            memory::carried(memory::marks(old(self).stack@), p, mv, ply as int),
            old(s).zobrist_trail@ == o.trail.push(old(self).pos.hash),
            value::heir(
                p,
                *old(s).cfg,
                o,
                ply as int,
                value::height(entry),
                memory::memory(*old(self), *old(s)),
            ),
        ensures
            value::heir(
                p,
                *old(s).cfg,
                o,
                ply as int,
                value::height(entry),
                memory::memory(*final(self), *final(s)),
            ),
            final(self).back(*old(self), ply + 1),
            final(self).lined(ply + 1),
            final(s).wf(),
            final(s).calm(*old(s)),
            negamax::answered(r, *old(s), *final(s), ply + 1),
            r matches Ok(v) ==> value::brings(
                p,
                old(self).pos,
                mv,
                *old(s).cfg,
                o,
                old(self).is_nmp_verif,
                entry,
                ply as int,
                node,
                depth as int,
                alpha as int,
                beta as int,
                v as int,
            ),
            // A position that is drawn by rule is a draw, however it is searched.
            negamax::ended(old(self).pos, old(s).zobrist_trail@, ply + 1) ==> (r matches Ok(x) ==> x == 1 || x == -1),
        decreases MAX_PLY + 1 - ply, 0int, 0int,
    {
        let ghost w0 = *self;
        let ghost s0 = *s;
        let out = self.negamax(s, node, depth, alpha, beta, ply + 1, Move::null(), false);
        proof {
            memory::lemma_visits_next(p, o.trail, w0.pos);
            value::lemma_heir_goes_on(
                p,
                *s0.cfg,
                o,
                ply as int,
                value::height(entry),
                memory::memory(w0, s0),
                w0.pos,
                s0.zobrist_trail@,
                ply + 1,
                value::height(depth as int) + 1,
                memory::memory(*self, *s),
            );
        }
        let x: i32 = out?;
        proof {
            value::lemma_brings(
                p,
                mv,
                w0,
                s0,
                *s0.cfg,
                o,
                entry,
                ply as int,
                node,
                depth as int,
                alpha as int,
                beta as int,
                x as int,
            );
        }
        Ok(-x)
    }

    /// Punishes or rewards the continuation history of the move just played at `ply`.
    pub(crate) fn learn_continuation(&mut self, cfg: &SearchConfig, ply: usize, depth: i32, failed: bool)
        requires
            old(self).wf(),
            cfg.wf(),
            ply < MAX_PLY,
            -100 <= depth <= 1000,
        ensures
            final(self).wf(),
            final(self).pos == old(self).pos,
            final(self).accumulator == old(self).accumulator,
            final(self).stack == old(self).stack,
            final(self).is_nmp_verif == old(self).is_nmp_verif,
            final(self).pawn_cache == old(self).pawn_cache,
            final(self).history.grown(old(self).history),
            old(self).stack@[ply as int].moved_pt == PieceType::Empty ==> final(self).history == old(self).history,
            old(self).stack@[ply as int].moved_pt != PieceType::Empty ==> exists|conts: (ContContext, ContContext, ContContext)|
                #[trigger] old(self).behind(ply as int, conts) && final(self).history.cont_taught(
                    old(self).history,
                    old(self).pos.stm.other(),
                    old(self).stack@[ply as int].moved_pt,
                    old(self).stack@[ply as int].moved_to,
                    conts,
                    if failed {
                        -prune::earned(depth as int, cfg.search_params)
                    } else {
                        prune::earned(depth as int, cfg.search_params)
                    },
                ),
    {
        proof {
            reveal(Worker::kept);
        }
        let pt = self.stack[ply].moved_pt;
        let to = self.stack[ply].moved_to;
        // At the root there is neither a man on record nor a context to learn in.
        if pt == PieceType::Empty {
            return;
        }
        let (c1, c2, c4) = self.cont_contexts(ply);
        assert(old(self).behind(ply as int, (c1, c2, c4)));
        let bonus: i32 = history_bonus(depth, &cfg.search_params);
        let signed: i32 = if failed {
            -bonus
        } else {
            bonus
        };
        let stm = self.pos.stm.opposite();
        self.history.update_conthist(stm, pt, to, c1, c2, c4, signed);
        proof {
            history::lemma_grown_by_a_lesson(old(self).history, self.history);
        }
    }

    /// Makes a move, searches it and takes it back.
    pub(crate) fn search_move(
        &mut self,
        s: &mut Searcher,
        ctx: &NodeCtx,
        mv: Move,
        depth: i32,
        res: &mut MoveResult,
        root_idx: Option<usize>,
        cut: i32,
        extension: i32,
        Ghost(o): Ghost<Origin>,
    ) -> (r: Result<(), SearchAborted>)
        requires
            old(self).wf(),
            old(self).lined(ctx.ply as int),
            old(s).wf(),
            ctx.ply < MAX_PLY,
            1 <= ctx.entry_depth <= 250 + ctx.ply,
            search::may(old(self).pos, mv),
            memory::carried(memory::marks(old(self).stack@), old(self).pos, mv, ctx.ply as int),
            old(res).fits(old(self).pos, ctx.ply as int),
            negamax::opened(old(res).alpha as int, ctx.beta as int, ctx.ply as int),
            -10 <= depth <= 251 + ctx.ply,
            0 <= cut <= 5000,
            0 <= extension <= 1,
            root_idx matches Some(i) ==> {
                &&& i < old(s).root_moves@.len()
                &&& old(s).root_moves@[i as int].mv == mv
                &&& old(s).root_pos == old(self).pos
                &&& ctx.ply == 0
            },
            o.trail == old(s).zobrist_trail@,
            value::heir(
                old(self).pos,
                *old(s).cfg,
                o,
                ctx.ply as int,
                value::height(ctx.entry_depth as int),
                memory::memory(*old(self), *old(s)),
            ),
        ensures
            value::heir(
                old(self).pos,
                *old(s).cfg,
                o,
                ctx.ply as int,
                value::height(ctx.entry_depth as int),
                memory::memory(*final(self), *final(s)),
            ),
            final(self).back(*old(self), ctx.ply as int),
            final(self).lined(ctx.ply as int),
            final(s).wf(),
            final(s).steady(*old(s)),
            r is Ok ==> final(res).fits(old(self).pos, ctx.ply as int),
            final(res).alpha >= old(res).alpha,
            r is Err ==> negamax::aborted(*old(s), *final(s)),
            r is Err || root_idx is None ==> final(s).root_moves@ == old(s).root_moves@,
            r is Ok ==> final(res).move_count > 0,
            r is Ok ==> final(res).best_eval >= old(res).best_eval,
            r is Ok ==> exists|e: int| #[trigger]
                entered(*old(res), *final(res), mv, e) && -search::cap(ctx.ply as int) <= e <= search::cap(ctx.ply as int)
                    && value::ran(
                    old(self).pos,
                    *old(s).cfg,
                    o,
                    old(self).is_nmp_verif,
                    ctx.node,
                    ctx.beta as int,
                    ctx.entry_depth as int,
                    ctx.ply as int,
                    depth - 1 + extension,
                    cut as int,
                    old(res).move_count == 0,
                    old(res).alpha as int,
                    mv,
                    e,
                ),
            r is Ok && final(res).alpha > old(res).alpha ==> final(res).best_eval == final(res).alpha,
            (r is Ok && root_idx is Some) ==> root_scored(
                *old(s),
                *final(s),
                old(self).pos,
                root_idx->0 as int,
                *old(res),
                *final(res),
            ),
        decreases MAX_PLY + 1 - ctx.ply, ctx.entry_depth, 8int,
    {
        let ply: usize = ctx.ply;
        let ghost w0 = *self;
        let ghost s0 = *s;
        let undo = self.advance(s, mv);
        let ghost q = self.pos;
        let ghost m0 = memory::memory(*self, *s);
        proof {
            assert(m0 == memory::memory(w0, s0));
            assert(memory::stepped(w0.pos, q));
        }
        let mut red: i32 = cut;
        // A check forces the reply: reducing it would put the horizon inside the sequence.
        if self.in_check() {
            let less: i32 = red - s.cfg.search_params.check_lmr_bonus();
            red = if less > 0 {
                less
            } else {
                0
            };
        }
        res.move_count = res.move_count.saturating_add(1);
        if root_idx.is_some() {
            s.note_currmove(depth, mv, res.move_count);
        }
        let is_first = res.move_count == 1;
        let out = self.pvs(s, ctx, depth, res.alpha, is_first, red, extension, mv, Ghost(w0.pos), Ghost(o));
        let ghost wl = *self;
        let ghost m1 = memory::memory(*self, *s);
        self.retreat(s, undo, Ghost(w0));
        assert(s.zobrist_trail@ =~= s0.zobrist_trail@);
        proof {
            assert(memory::memory(*self, *s) == m1);
            memory::lemma_visits_next(w0.pos, o.trail, q);
            memory::lemma_furnished_above(wl.pawn_cache, w0.pawn_cache, w0.pos, q);
        }
        let e: i32 = match out {
            Ok(x) => x,
            Err(x) => {
                return Err(x);
            },
        };
        self.book(s, ctx, mv, e, res, root_idx, Ghost(q));
        proof {
            value::lemma_ran(
                w0.pos,
                q,
                mv,
                *s0.cfg,
                o,
                w0.is_nmp_verif,
                ctx.node,
                ctx.beta as int,
                ctx.entry_depth as int,
                ply as int,
                depth - 1 + extension,
                cut as int,
                old(res).move_count == 0,
                old(res).alpha as int,
                e as int,
            );
        }
        assert(entered(*old(res), *res, mv, e as int));
        Ok(())
    }

    /// Enters the score of a searched move: in the root's list, and as the best if it is.
    pub(crate) fn book(
        &mut self,
        s: &mut Searcher,
        ctx: &NodeCtx,
        mv: Move,
        e: i32,
        res: &mut MoveResult,
        root_idx: Option<usize>,
        Ghost(q): Ghost<Position>,
    )
        requires
            old(self).wf(),
            old(self).lined(ctx.ply as int),
            old(s).wf(),
            ctx.ply < MAX_PLY,
            search::may(old(self).pos, mv),
            line::followed(old(self).pos, mv, q),
            line::playable(q, old(self).stack@[ctx.ply + 1].pv@),
            old(res).move_count > 0,
            old(res).best_eval == -INF || -search::cap(ctx.ply as int) <= old(res).best_eval <= search::cap(ctx.ply as int),
            old(res).best_move.0 != 0 ==> search::may(old(self).pos, old(res).best_move),
            -WINDOW <= old(res).alpha <= search::cap(ctx.ply as int),
            -search::cap(ctx.ply as int) <= e <= search::cap(ctx.ply as int),
            root_idx matches Some(i) ==> {
                &&& i < old(s).root_moves@.len()
                &&& old(s).root_moves@[i as int].mv == mv
                &&& old(s).root_pos == old(self).pos
                &&& ctx.ply == 0
            },
        ensures
            memory::memory(*final(self), *final(s)) == memory::memory(*old(self), *old(s)),
            final(self).back(*old(self), ctx.ply as int),
            final(self).lined(ctx.ply as int),
            final(s).wf(),
            final(s).steady(*old(s)),
            final(res).fits(old(self).pos, ctx.ply as int),
            final(res).move_count == old(res).move_count,
            final(res).best_eval == (if e > old(res).best_eval {
                e
            } else {
                old(res).best_eval
            }),
            final(res).best_move == (if e > old(res).best_eval {
                mv
            } else {
                old(res).best_move
            }),
            final(res).alpha == (if e > old(res).best_eval && e > old(res).alpha {
                e
            } else {
                old(res).alpha
            }),
            root_idx is None ==> final(s).root_moves@ == old(s).root_moves@,
            root_idx is Some ==> root_scored(
                *old(s),
                *final(s),
                old(self).pos,
                root_idx->0 as int,
                *old(res),
                *final(res),
            ),
    {
        let ply: usize = ctx.ply;
        if let Some(i) = root_idx {
            s.score_root(i, e);
        }
        if e > res.best_eval {
            res.best_eval = e;
            res.best_move = mv;
            let tail = self.line_at(ply + 1);
            if let Some(i) = root_idx {
                s.line_root(i, mv, &tail, Ghost(q));
            }
            if e > res.alpha {
                res.alpha = e;
                self.raise_line(ply, mv, &tail, Ghost(q));
            }
        }
        proof {
            if root_idx is Some {
                let i = root_idx->0 as int;
                assert(s.root_moves@ =~= old(s).root_moves@.update(i, s.root_moves@[i]));
            }
        }
    }
}

/// A move that scored `e` has been entered into a node's result.
pub open spec fn entered(r0: MoveResult, r1: MoveResult, mv: Move, e: int) -> bool {
    &&& r1.move_count == (if r0.move_count < usize::MAX {
        r0.move_count + 1
    } else {
        usize::MAX as int
    })
    &&& r1.best_eval == legal::greater(r0.best_eval as int, e)
    &&& r1.best_move == (if e > r0.best_eval {
        mv
    } else {
        r0.best_move
    })
    &&& r1.alpha == (if e > r0.best_eval && e > r0.alpha {
        e
    } else {
        r0.alpha as int
    })
}

/// What searching root move `i` does to the list.
pub open spec fn root_scored(s0: Searcher, s1: Searcher, p: Position, i: int, r0: MoveResult, r1: MoveResult) -> bool {
    let x = s0.root_moves@[i];
    let y = s1.root_moves@[i];
    &&& s1.root_moves@ == s0.root_moves@.update(i, y)
    &&& y.mv == x.mv
    &&& y.nodes == x.nodes
    &&& -search::cap(0) <= y.score <= search::cap(0)
    &&& if y.score > r0.best_eval {
        &&& r1.best_eval == y.score
        &&& y.pv.len >= 1
        &&& y.pv@[0] == y.mv
        &&& line::playable(p, y.pv@)
    } else {
        r1.best_eval == r0.best_eval && y.pv == x.pv
    }
}

impl Worker {
    /// A picker of all moves.
    pub(crate) fn all_moves(
        &self,
        cfg: &SearchConfig,
        ctx: &NodeCtx,
        threats: Bitboard,
        conts: (ContContext, ContContext, ContContext),
    ) -> (picker: MovePicker)
        requires
            self.wf(),
            cfg.wf(),
            ctx.fits(self.pos),
            conts.0.to.ok(),
            conts.1.to.ok(),
            conts.2.to.ok(),
        ensures
            step::picks(picker, self.pos, ctx.pins, ctx.checkers),
            picker.plan.full(),
            forall|ex: Move| #[trigger] step::passed_over(picker, self.pos, ex),
            forall|done: Set<Move>| #[trigger] step::behind(picker, self.pos, done),
    {
        proof {
            reveal(Worker::kept);
            reveal(NodeCtx::sees);
            reveal(step::picks);
            reveal(step::checking);
            reveal(step::passed_over);
            reveal(step::behind);
            assert(self.stack@[ctx.ply as int].wf());
        }
        let picker = MovePicker::new(
            ctx.tt_move,
            cfg,
            ctx.pins,
            self.stack[ctx.ply].killers,
            threats,
            conts.0,
            conts.1,
            conts.2,
        );
        proof {
            picker.plan.lemma_fits(*cfg, self.pos);
            picker.lemma_fresh(self.pos, self.history);
        }
        picker
    }
}

/// The result of a node is that of the moves of `log`.
#[verifier::opaque]
spec fn logs(
    p: Position,
    cfg: SearchConfig,
    o: Origin,
    verifying: bool,
    ctx: NodeCtx,
    d: int,
    alpha: int,
    log: Seq<(Move, int)>,
    res: MoveResult,
) -> bool {
    &&& value::all_tried(p, cfg, o, verifying, ctx, d, alpha, log)
    &&& if log.len() == 0 {
        res.best_eval == -INF
    } else {
        value::tops(None, log, res.best_eval as int, res.best_move)
    }
    &&& res.move_count == legal::lesser(log.len() as int, usize::MAX as int)
    &&& res.alpha == value::peak(alpha, log)
    &&& res.best_eval <= res.alpha
    &&& value::halts(log, ctx.beta as int)
}

proof fn lemma_logs_push(
    p: Position,
    cfg: SearchConfig,
    o: Origin,
    verifying: bool,
    ctx: NodeCtx,
    d: int,
    alpha: int,
    log: Seq<(Move, int)>,
    r0: MoveResult,
    r1: MoveResult,
    mv: Move,
) -> (e: int)
    requires
        logs(p, cfg, o, verifying, ctx, d, alpha, log, r0),
        r0.alpha < ctx.beta,
        r1.best_eval >= -INF,
        exists|e: int| #[trigger]
            entered(r0, r1, mv, e) && value::tried(
                p,
                cfg,
                o,
                verifying,
                ctx,
                ctx.entry_depth as int,
                ctx.ply as int,
                d,
                r0.alpha as int,
                r0.move_count as int,
                mv,
                e,
            ),
        r1.best_move == mv || r1.best_eval == r0.best_eval,
        r0.best_eval == -INF ==> r1.best_eval > -INF,
    ensures
        logs(p, cfg, o, verifying, ctx, d, alpha, log.push((mv, e)), r1),
        r1.alpha >= ctx.beta ==> r1.best_eval >= ctx.beta && r1.best_move == mv,
        r1.best_eval <= r1.alpha,
{
    reveal(logs);
    let e = choose|e: int| #[trigger]
        entered(r0, r1, mv, e) && value::tried(
            p,
            cfg,
            o,
            verifying,
            ctx,
            ctx.entry_depth as int,
            ctx.ply as int,
            d,
            r0.alpha as int,
            r0.move_count as int,
            mv,
            e,
        );
    value::lemma_all_tried_push(p, cfg, o, verifying, ctx, d, alpha, log, (mv, e));
    value::lemma_tops_push(None, log, r0.best_eval as int, r0.best_move, (mv, e));
    value::lemma_peak_push(alpha, log, (mv, e));
    let l = log.push((mv, e));
    assert forall|i: int| 0 <= i < l.len() - 1 implies (#[trigger] l[i]).1 < ctx.beta by {
        assert(l[i] == log[i]);
    }
    e
}

proof fn lemma_logs_done(
    p: Position,
    cfg: SearchConfig,
    o: Origin,
    roots: Option<Seq<Move>>,
    verifying: bool,
    ctx: NodeCtx,
    d: int,
    alpha: int,
    log: Seq<(Move, int)>,
    res: MoveResult,
)
    requires
        logs(p, cfg, o, verifying, ctx, d, alpha, log, res),
        log.len() > 0,
        d == ctx.loop_depth(cfg.search_params),
        match roots {
            Some(ms) => {
                &&& log.len() <= ms.len()
                &&& forall|i: int| 0 <= i < log.len() ==> (#[trigger] log[i]).0 == ms[i]
                &&& res.best_eval < ctx.beta ==> log.len() == ms.len()
            },
            None => {
                &&& forall|i: int| 0 <= i < log.len() ==> (#[trigger] log[i]).0 != ctx.excluded
                &&& res.best_eval < ctx.beta ==> forall|m: Move| #[trigger]
                    search::may(p, m) && m != ctx.excluded ==> value::logged(log, m) || value::skipped(
                        p,
                        cfg,
                        o,
                        ctx,
                        d,
                        alpha,
                        log,
                        m,
                    )
            },
        },
    ensures
        value::searched(
            p,
            cfg,
            o,
            roots,
            verifying,
            ctx,
            ctx.entry_depth as int,
            ctx.ply as int,
            alpha,
            res.best_eval as int,
        ),
        value::found(
            p,
            cfg,
            o,
            roots,
            verifying,
            ctx,
            ctx.entry_depth as int,
            ctx.ply as int,
            alpha,
            res.best_eval as int,
            res.best_move,
        ),
{
    reveal(logs);
    value::lemma_searched(p, cfg, o, roots, verifying, ctx, alpha, log, res.best_eval as int, res.best_move);
}

/// The moves seen so far were searched, skipped or set aside.
#[verifier::opaque]
spec fn accounted(
    p: Position,
    cfg: SearchConfig,
    o: Origin,
    ctx: NodeCtx,
    d: int,
    alpha: int,
    log: Seq<(Move, int)>,
    seen: Set<Move>,
) -> bool {
    forall|m: Move| #[trigger]
        seen.contains(m) ==> m == ctx.excluded || value::logged(log, m) || value::skipped(p, cfg, o, ctx, d, alpha, log, m)
}

proof fn lemma_accounted_push(
    p: Position,
    cfg: SearchConfig,
    o: Origin,
    ctx: NodeCtx,
    d: int,
    alpha: int,
    log: Seq<(Move, int)>,
    before: Set<Move>,
    seen: Set<Move>,
    e: (Move, int),
)
    requires
        accounted(p, cfg, o, ctx, d, alpha, log, before),
        seen == before.insert(e.0),
    ensures
        accounted(p, cfg, o, ctx, d, alpha, log.push(e), seen),
{
    reveal(accounted);
    value::lemma_logged_push(log, e);
    value::lemma_skipped_push(p, cfg, o, ctx, d, alpha, log, e);
}

proof fn lemma_accounted_all(
    p: Position,
    cfg: SearchConfig,
    o: Origin,
    ctx: NodeCtx,
    d: int,
    alpha: int,
    log: Seq<(Move, int)>,
    seen: Set<Move>,
    plan: movepicker::Plan,
)
    requires
        accounted(p, cfg, o, ctx, d, alpha, log, seen),
        step::exhausts(plan, p, seen),
        plan.full(),
    ensures
        forall|m: Move| #[trigger]
            search::may(p, m) && m != ctx.excluded ==> value::logged(log, m) || value::skipped(p, cfg, o, ctx, d, alpha, log, m),
{
    reveal(accounted);
    reveal(step::exhausts);
    assert forall|m: Move| #[trigger] search::may(p, m) && m != ctx.excluded implies value::logged(log, m) || value::skipped(
        p,
        cfg,
        o,
        ctx,
        d,
        alpha,
        log,
        m,
    ) by {
        reveal(search::may);
        assert(plan.offered(p, m));
        assert(seen.contains(m));
    }
}

/// Among the first `n` root moves, move `k` is the first with the best score, and has a line.
pub open spec fn leads(rm: Seq<RootMove>, p: Position, n: int, k: int, best: int) -> bool {
    &&& 0 <= k < n <= rm.len()
    &&& rm[k].score == best
    &&& forall|j: int| 0 <= j < n ==> (#[trigger] rm[j]).score <= best
    &&& forall|j: int| 0 <= j < k ==> (#[trigger] rm[j]).score < best
    &&& rm[k].pv.len >= 1
    &&& rm[k].pv@[0] == rm[k].mv
    &&& line::playable(p, rm[k].pv@)
}

impl Worker {
    /// The move loop of the root. Late moves are scouted at reduced depth: the list is in
    /// the order of the last iteration.
    pub(crate) fn search_root(
        &mut self,
        s: &mut Searcher,
        ctx: &NodeCtx,
        depth: i32,
        alpha: i32,
        Ghost(o): Ghost<Origin>,
    ) -> (r: Result<MoveResult, SearchAborted>)
        requires
            old(self).wf(),
            old(self).lined(0),
            old(s).wf(),
            old(s).rooted(),
            old(self).pos == old(s).root_pos,
            ctx.fits(old(self).pos),
            ctx.ply == 0,
            negamax::opened(alpha as int, ctx.beta as int, 0),
            -10 <= depth <= 251,
            depth == ctx.loop_depth(old(s).cfg.search_params),
            o.trail == old(s).zobrist_trail@,
            value::heir(
                old(self).pos,
                *old(s).cfg,
                o,
                ctx.ply as int,
                value::height(ctx.entry_depth as int),
                memory::memory(*old(self), *old(s)),
            ),
        ensures
            value::heir(
                old(self).pos,
                *old(s).cfg,
                o,
                ctx.ply as int,
                value::height(ctx.entry_depth as int),
                memory::memory(*final(self), *final(s)),
            ),
            final(self).back(*old(self), 0),
            final(self).lined(0),
            final(s).wf(),
            final(s).steady(*old(s)),
            final(s).rooted(),
            negamax::moves_of(final(s).root_moves@) == negamax::moves_of(old(s).root_moves@),
            r is Err ==> negamax::aborted(*old(s), *final(s)),
            r matches Ok(res) ==> {
                &&& res.fits(old(self).pos, 0)
                &&& old(s).root_moves@.len() > 0 ==> res.move_count > 0
                &&& old(s).root_moves@.len() == 0 ==> res.move_count == 0
                &&& old(s).root_moves@.len() > 0 ==> value::searched(
                        old(self).pos,
                        *old(s).cfg,
                        o,
                        Some(negamax::moves_of(old(s).root_moves@)),
                        old(self).is_nmp_verif,
                        *ctx,
                        ctx.entry_depth as int,
                        0,
                        alpha as int,
                        res.best_eval as int,
                    )
                &&& old(s).root_moves@.len() > 0 ==> value::found(
                        old(self).pos,
                        *old(s).cfg,
                        o,
                        Some(negamax::moves_of(old(s).root_moves@)),
                        old(self).is_nmp_verif,
                        *ctx,
                        ctx.entry_depth as int,
                        0,
                        alpha as int,
                        res.best_eval as int,
                        res.best_move,
                    )
                &&& old(s).root_moves@.len() > 0 && res.best_eval < ctx.beta ==> exists|k: int|
                    leads(final(s).root_moves@, old(self).pos, old(s).root_moves@.len() as int, k, res.best_eval as int)
            },
        decreases MAX_PLY + 1 - ctx.ply, ctx.entry_depth, 9int,
    {
        let ghost w0 = *self;
        let ghost s0 = *s;
        let ghost p = self.pos;
        let mut res = MoveResult { move_count: 0, best_eval: -INF, alpha, best_move: Move::null() };
        let n: usize = s.root_moves.len();
        let mut i: usize = 0;
        let ghost mut k: int = 0;
        let ghost ms = negamax::moves_of(s.root_moves@);
        let ghost mut log: Seq<(Move, int)> = Seq::empty();
        proof {
            reveal(logs);
        }
        while i < n
            invariant
                i <= n,
                n == s.root_moves@.len(),
                self.back(w0, 0),
                self.lined(0),
                w0.wf(),
                w0 == *old(self),
                o.trail == s0.zobrist_trail@,
                value::heir(
                    p,
                    *s0.cfg,
                    o,
                    ctx.ply as int,
                    value::height(ctx.entry_depth as int),
                    memory::memory(*self, *s),
                ),
                s0 == *old(s),
                p == w0.pos,
                p == s0.root_pos,
                s.wf(),
                s.rooted(),
                s.steady(s0),
                negamax::moves_of(s.root_moves@) == negamax::moves_of(s0.root_moves@),
                ctx.fits(p),
                ctx.ply == 0,
                -10 <= depth <= 251,
                res.fits(p, 0),
                negamax::opened(res.alpha as int, ctx.beta as int, 0),
                i == 0 ==> res.move_count == 0,
                i > 0 ==> res.move_count > 0 && leads(s.root_moves@, p, i as int, k, res.best_eval as int),
                depth == ctx.loop_depth(s0.cfg.search_params),
                ms == negamax::moves_of(s0.root_moves@),
                ms.len() == n,
                log.len() == i,
                forall|j: int| 0 <= j < log.len() ==> (#[trigger] log[j]).0 == ms[j],
                logs(p, *s0.cfg, o, w0.is_nmp_verif, *ctx, depth as int, alpha as int, log, res),
            decreases n - i,
        {
            let mv = s.root_moves[i].mv;
            let quiet = mv.is_quiet();
            let cut: i32 = if depth >= 2 && i >= 1 && quiet && !ctx.in_check {
                s.cfg.lmr(depth, i + 1) / LMR_SCALE
            } else {
                0
            };
            let before: u64 = s.nodes;
            let ghost s1 = *s;
            let ghost r1 = res;
            assert(r1.move_count == i) by {
                reveal(logs);
            }
            self.search_move(s, ctx, mv, depth, &mut res, Some(i), cut, 0, Ghost(o))?;
            proof {
                assert(value::reduces(p, *s0.cfg, o, *ctx, depth as int, i as int, mv, cut as int)) by {
                    reveal(value::reduces);
                }
                let v = choose|e: int| #[trigger]
                    entered(r1, res, mv, e) && value::ran(
                        p,
                        *s0.cfg,
                        o,
                        w0.is_nmp_verif,
                        ctx.node,
                        ctx.beta as int,
                        ctx.entry_depth as int,
                        0,
                        depth - 1,
                        cut as int,
                        i == 0,
                        r1.alpha as int,
                        mv,
                        e,
                    );
                value::lemma_not_asked(p, *s0.cfg, o, w0.is_nmp_verif, *ctx, depth as int, mv);
                value::lemma_tried(
                    p,
                    *s0.cfg,
                    o,
                    w0.is_nmp_verif,
                    *ctx,
                    depth as int,
                    r1.alpha as int,
                    i as int,
                    mv,
                    cut as int,
                    false,
                    v,
                );
                assert(negamax::moves_of(s1.root_moves@)[i as int] == mv);
                let e = lemma_logs_push(p, *s0.cfg, o, w0.is_nmp_verif, *ctx, depth as int, alpha as int, log, r1, res, mv);
                log = log.push((mv, e));
            }
            let spent: u64 = s.nodes - before;
            let ghost s2 = *s;
            s.charge_root(i, spent);
            assert(memory::memory(*self, *s) == memory::memory(*self, s2));
            proof {
                let rm = s.root_moves@;
                assert forall|j: int| 0 <= j < rm.len() implies (#[trigger] rm[j]).mv == s1.root_moves@[j].mv && (j != i
                    ==> rm[j] == s1.root_moves@[j]) by {
                    assert(s2.root_moves@[j].mv == s1.root_moves@[j].mv);
                }
                assert(negamax::moves_of(rm) =~= negamax::moves_of(s1.root_moves@));
                if res.best_eval > r1.best_eval {
                    k = i as int;
                }
                assert(rm[i as int].pv == s2.root_moves@[i as int].pv);
                assert(Searcher::grows(p, s1.root_moves@[i as int]));
                assert(Searcher::grows(p, rm[i as int]));
                assert(leads(rm, p, i + 1, k, res.best_eval as int));
            }
            i = i + 1;
            if res.alpha >= ctx.beta {
                proof {
                    assert(res.best_eval >= ctx.beta);
                    lemma_logs_done(p, *s0.cfg, o, Some(ms), w0.is_nmp_verif, *ctx, depth as int, alpha as int, log, res);
                }
                return Ok(res);
            }
        }
        proof {
            if n > 0 {
                lemma_logs_done(p, *s0.cfg, o, Some(ms), w0.is_nmp_verif, *ctx, depth as int, alpha as int, log, res);
                assert(leads(s.root_moves@, p, n as int, k, res.best_eval as int));
            }
        }
        Ok(res)
    }

    /// Whether a move is not worth searching at this depth.
    ///
    /// Futility: the evaluation is too far below alpha for a quiet move. Late moves: enough
    /// have been tried. History: the move has failed too often; killers are spared, as they
    /// refute this node and few others. Exchange: the move loses too much material.
    pub(crate) fn is_pruned(
        &self,
        sp: &SearchParams,
        ctx: &NodeCtx,
        mv: Move,
        depth: i32,
        res: &MoveResult,
        threats: Bitboard,
        conts: (ContContext, ContContext, ContContext),
    ) -> (r: bool)
        requires
            self.wf(),
            sp.wf(),
            ctx.fits(self.pos),
            search::may(self.pos, mv),
            -10 <= depth <= 1000,
            conts.0.to.ok(),
            conts.1.to.ok(),
            conts.2.to.ok(),
        ensures
            r == self.prunes(*sp, *ctx, mv, depth as int, *res, threats, conts),
            r ==> res.move_count >= 1,
    {
        if ctx.in_check || ctx.node.is_pv() {
            return false;
        }
        let tried = res.move_count >= 1;
        let quiet = mv.is_quiet();
        if quiet && tried && futile(ctx.static_eval, res.alpha, depth, sp) {
            return true;
        }
        assert(depth * depth >= 0) by (nonlinear_arith);
        if quiet && late(res.move_count, depth, sp) {
            return true;
        }
        if !mv.is_tactical() && tried && mv != self.stack[ctx.ply].killers[0] && mv != self.stack[ctx.ply].killers[1] {
            let hist: i32 = self.quiet_history(mv, threats, conts);
            if disgraced(hist, depth, sp) {
                return true;
            }
        }
        tried && !self.clears(mv, see_margin(mv.is_capture(), depth, sp), ctx)
    }

    /// What [`Worker::is_pruned`] decides.
    pub open spec fn prunes(
        self,
        sp: SearchParams,
        ctx: NodeCtx,
        mv: Move,
        depth: int,
        res: MoveResult,
        threats: Bitboard,
        conts: (ContContext, ContContext, ContContext),
    ) -> bool {
        let tried = res.move_count >= 1;
        &&& !ctx.in_check
        &&& ctx.node == NodeType::NonPvNode
        &&& {
            ||| !mv.captures() && tried && depth <= sp.fp_depth() && ctx.static_eval + sp.fp_margin() * depth <= res.alpha
            ||| !mv.captures() && depth <= sp.lmp_depth() && res.move_count >= sp.lmp_base() + depth * depth
            ||| !mv.captures() && !mv.promotes() && tried && mv != self.stack@[ctx.ply as int].killers[0] && mv
                != self.stack@[ctx.ply as int].killers[1] && depth <= sp.hist_prune_depth() && self.quiet_worth(
                mv,
                threats,
                conts,
            ) < -(sp.hist_prune_margin() * depth)
            ||| tried && !prunings::worth_it(self.pos, mv, prune::see_allowance(mv.captures(), depth, sp))
        }
    }

    /// What the quiet histories say of a move.
    pub open spec fn quiet_worth(self, mv: Move, threats: Bitboard, conts: (ContContext, ContContext, ContContext)) -> int {
        let h = self.history;
        let c = self.pos.stm;
        let pt = self.pos.board()[mv.src()]->0.kind;
        let from = Square(mv.src() as u8);
        let to = Square(mv.dst() as u8);
        h.table@[History::main_place(c, pt, to)] + h.butterfly@[History::fly_place(c, from, to, threats)]
            + History::cont_worth(h.cont_near, c, conts.0, pt, to) + History::cont_worth(h.cont_far, c, conts.1, pt, to)
            + History::cont_worth(h.cont_far, c, conts.2, pt, to)
    }

    pub(crate) fn quiet_history(&self, mv: Move, threats: Bitboard, conts: (ContContext, ContContext, ContContext)) -> (r: i32)
        requires
            self.wf(),
            search::may(self.pos, mv),
            conts.0.to.ok(),
            conts.1.to.ok(),
            conts.2.to.ok(),
        ensures
            r == self.quiet_worth(mv, threats, conts),
            -163840 <= r <= 163840,
    {
        proof {
            reveal(Worker::kept);
            reveal(search::may);
        }
        let pt = self.pos.piece_at(mv.from());
        self.history.score_quiet(self.pos.stm, pt, mv.from(), mv.to(), threats, conts.0, conts.1, conts.2)
    }

    /// How many dearer men a move comes to attack.
    pub open spec fn fresh_threats(p: Position, mv: Move) -> int {
        census::tally(|t: int| spatial::fresh_threat(p, p.board()[mv.src()]->0.kind, mv.src(), mv.dst(), t), 64)
    }

    pub(crate) fn count_threats(&self, mv: Move) -> (n: u32)
        requires
            self.wf(),
            search::may(self.pos, mv),
        ensures
            n == Worker::fresh_threats(self.pos, mv),
            n <= 64,
    {
        proof {
            reveal(Worker::kept);
            reveal(search::may);
        }
        let pt = self.pos.piece_at(mv.from());
        let fresh = self.pos.new_threats(pt, mv.from(), mv.to());
        proof {
            let p = self.pos;
            census::lemma_count(
                fresh,
                |t: int| spatial::fresh_threat(p, p.board()[mv.src()]->0.kind, mv.src(), mv.dst(), t),
            );
        }
        fresh.popcount()
    }

    /// How many plies a quiet move that is searched after `n` others is reduced by.
    pub open spec fn lateness(
        self,
        cfg: SearchConfig,
        ctx: NodeCtx,
        mv: Move,
        depth: int,
        n: int,
        threats: Bitboard,
        conts: (ContContext, ContContext, ContContext),
    ) -> int {
        prune::reduced(
            cfg.lmr_spec(depth, n + 1),
            mv == self.stack@[ctx.ply as int].killers[0] || mv == self.stack@[ctx.ply as int].killers[1],
            Worker::fresh_threats(self.pos, mv),
            self.stack@[ctx.ply + 1].cutoff_count as int,
            ctx.improving,
            self.quiet_worth(mv, threats, conts),
            depth,
            cfg.search_params,
        )
    }

    /// How many plies a late quiet move is reduced by.
    pub(crate) fn late_reduction(
        &self,
        cfg: &SearchConfig,
        ctx: &NodeCtx,
        mv: Move,
        depth: i32,
        move_count: usize,
        threats: Bitboard,
        conts: (ContContext, ContContext, ContContext),
    ) -> (r: i32)
        requires
            self.wf(),
            cfg.wf(),
            ctx.ply < MAX_PLY,
            search::may(self.pos, mv),
            -10 <= depth <= 1000,
            conts.0.to.ok(),
            conts.1.to.ok(),
            conts.2.to.ok(),
            move_count < usize::MAX,
        ensures
            0 <= r <= 1000,
            r == (if depth >= 2 && move_count >= 1 && !mv.captures() && !ctx.in_check {
                self.lateness(*cfg, *ctx, mv, depth as int, move_count as int, threats, conts)
            } else {
                0
            }),
    {
        if !(depth >= 2 && move_count >= 1 && mv.is_quiet() && !ctx.in_check) {
            return 0;
        }
        let base: i32 = cfg.lmr(depth, move_count + 1);
        let hist: i32 = self.quiet_history(mv, threats, conts);
        let killer = mv == self.stack[ctx.ply].killers[0] || mv == self.stack[ctx.ply].killers[1];
        let fresh: u32 = self.count_threats(mv);
        let cutoffs: i32 = self.stack[ctx.ply + 1].cutoff_count;
        reduction(base, killer, fresh, cutoffs, ctx.improving, hist, depth, &cfg.search_params)
    }
}

/// The quiet histories of a move have moved by `bonus`.
#[verifier::opaque]
pub open spec fn taught_quiet(
    h0: History,
    h1: History,
    p: Position,
    mv: Move,
    threats: Bitboard,
    conts: (ContContext, ContContext, ContContext),
    bonus: int,
) -> bool {
    h1.quiet_taught(
        h0,
        p.stm,
        p.board()[mv.src()]->0.kind,
        Square(mv.src() as u8),
        Square(mv.dst() as u8),
        threats,
        conts,
        bonus,
    )
}

/// The capture history of a capture has moved by `bonus`. The victim of an en passant capture
/// is a pawn.
#[verifier::opaque]
pub open spec fn taught_capture(h0: History, h1: History, p: Position, mv: Move, bonus: int) -> bool {
    let victim = if mv.takes_ep() {
        PieceType::Pawn
    } else {
        p.board()[mv.dst()]->0.kind
    };
    h1.capture_taught(h0, p.stm, p.board()[mv.src()]->0.kind, Square(mv.dst() as u8), victim, bonus)
}

/// The quiet histories of the first `n` moves have moved by `bonus`, one after the other.
pub open spec fn quiets_taught(
    h0: History,
    h1: History,
    p: Position,
    list: Seq<Move>,
    n: nat,
    threats: Bitboard,
    conts: (ContContext, ContContext, ContContext),
    bonus: int,
) -> bool
    decreases n,
{
    if n == 0 {
        h0 == h1
    } else {
        exists|h: History| #[trigger]
            taught_quiet(h, h1, p, list[n - 1], threats, conts, bonus) && quiets_taught(
                h0,
                h,
                p,
                list,
                (n - 1) as nat,
                threats,
                conts,
                bonus,
            )
    }
}

/// The capture histories of the first `n` moves have moved by `bonus`, one after the other.
pub open spec fn captures_taught(h0: History, h1: History, p: Position, list: Seq<Move>, n: nat, bonus: int) -> bool
    decreases n,
{
    if n == 0 {
        h0 == h1
    } else {
        exists|h: History| #[trigger]
            taught_capture(h, h1, p, list[n - 1], bonus) && captures_taught(h0, h, p, list, (n - 1) as nat, bonus)
    }
}

/// A move that cut has moved the histories of its kind.
pub open spec fn praised(
    h0: History,
    h1: History,
    p: Position,
    mv: Move,
    threats: Bitboard,
    conts: (ContContext, ContContext, ContContext),
    bonus: int,
) -> bool {
    if !mv.captures() && !mv.promotes() {
        taught_quiet(h0, h1, p, mv, threats, conts, bonus)
    } else if mv.captures() && !mv.promotes() {
        taught_capture(h0, h1, p, mv, bonus)
    } else {
        h0 == h1
    }
}

/// What a cutoff has taught: the move is praised, and the quiet moves and captures before it
/// are marked down by as much.
#[verifier::opaque]
pub open spec fn rewarded(
    h0: History,
    h3: History,
    p: Position,
    mv: Move,
    threats: Bitboard,
    conts: (ContContext, ContContext, ContContext),
    quiets: Seq<Move>,
    captures: Seq<Move>,
    bonus: int,
) -> bool {
    exists|h1: History, h2: History| #[trigger]
        praised(h0, h1, p, mv, threats, conts, bonus) && quiets_taught(
            h1,
            h2,
            p,
            quiets,
            quiets.len(),
            threats,
            conts,
            -bonus,
        ) && #[trigger] captures_taught(h2, h3, p, captures, captures.len(), -bonus)
}

/// The cutoff by `mv` has been taught: the tables are rewarded, and a quiet move is the first
/// killer.
#[verifier::opaque]
pub open spec fn cut_taught(p: Position, w: Worker, ply: int, mv: Move, bonus: int) -> bool {
    &&& !mv.captures() && !mv.promotes() ==> w.stack@[ply].killers[0] == mv
    &&& exists|
        h: History,
        threats: Bitboard,
        conts: (ContContext, ContContext, ContContext),
        quiets: Seq<Move>,
        captures: Seq<Move>,
    | #[trigger]
        rewarded(h, w.history, p, mv, threats, conts, quiets, captures, bonus) && value::reaches(p, threats) && quiets_of(
            quiets,
            p,
        ) && quiets_of(captures, p)
}

/// Every listed move is legal in `p`.
pub open spec fn quiets_of(list: Seq<Move>, p: Position) -> bool {
    forall|i: int| 0 <= i < list.len() ==> search::may(p, #[trigger] list[i])
}

/// Every listed move is a capture that is legal in `p`.
pub open spec fn captures_of(list: Seq<Move>, p: Position) -> bool {
    forall|i: int| 0 <= i < list.len() ==> search::may(p, #[trigger] list[i]) && list[i].captures()
}

impl Worker {
    /// Whether the table's move stands alone: every other move is searched in a window just
    /// below its score. Where all fall short the move is extended by a ply; where they
    /// clear beta without it, the node is cut.
    pub(crate) fn verify_singular(
        &mut self,
        s: &mut Searcher,
        ctx: &NodeCtx,
        mv: Move,
        depth: i32,
        Ghost(o): Ghost<Origin>,
    ) -> (r: Result<(i32, Option<i32>), SearchAborted>)
        requires
            old(self).wf(),
            old(self).lined(ctx.ply as int),
            old(s).wf(),
            ctx.ranges(),
            ctx.node == NodeType::NonPvNode,
            ctx.tt.bound != Bound::Empty,
            -MATE_BOUND < ctx.tt.score < MATE_BOUND,
            4 <= depth <= ctx.entry_depth + 1,
            depth == ctx.loop_depth(old(s).cfg.search_params),
            ctx.asks_alone(old(s).cfg.search_params, mv, depth as int),
            search::may(old(self).pos, mv),
            o.trail == old(s).zobrist_trail@,
            value::heir(
                old(self).pos,
                *old(s).cfg,
                o,
                ctx.ply as int,
                value::height(ctx.entry_depth as int),
                memory::memory(*old(self), *old(s)),
            ),
        ensures
            value::heir(
                old(self).pos,
                *old(s).cfg,
                o,
                ctx.ply as int,
                value::height(ctx.entry_depth as int),
                memory::memory(*final(self), *final(s)),
            ),
            negamax::returned(*old(self), *final(self), *old(s), *final(s), ctx.ply as int),
            match r {
                Ok(x) => {
                    &&& x.1 matches Some(c) ==> ctx.beta <= c <= search::cap(ctx.ply as int)
                    &&& exists|y: int| #[trigger]
                        value::verdict(
                            y,
                            ctx.alone_beta(old(s).cfg.search_params, depth as int),
                            ctx.beta as int,
                            x.0 as int,
                            x.1,
                        ) && value::aside(
                            old(self).pos,
                            *old(s).cfg,
                            o,
                            old(self).is_nmp_verif,
                            *ctx,
                            ctx.entry_depth as int,
                            ctx.ply as int,
                            depth as int,
                            mv,
                            y,
                        )
                },
                Err(_) => negamax::aborted(*old(s), *final(s)),
            },
        decreases MAX_PLY + 1 - ctx.ply, ctx.entry_depth, 8int,
    {
        let ply: usize = ctx.ply;
        let m: i32 = s.cfg.search_params.singext_margin();
        proof {
            assert(0 <= depth * m <= 1000 * 11) by (nonlinear_arith)
                requires
                    4 <= depth <= 1000,
                    1 <= m <= 11,
            ;
        }
        let low: i32 = ctx.tt.score - depth * m;
        let sing_beta: i32 = if low > -MATE_BOUND {
            low
        } else {
            -MATE_BOUND
        };
        let sing_depth: i32 = (depth - 1) / 2;
        let ghost w0 = *self;
        let ghost s0 = *s;
        let out = self.negamax(s, NodeType::NonPvNode, sing_depth, sing_beta - 1, sing_beta, ply, mv, false);
        proof {
            memory::lemma_visits_here(w0.pos, o.trail);
            value::lemma_heir_goes_on(
                w0.pos,
                *s0.cfg,
                o,
                ply as int,
                value::height(ctx.entry_depth as int),
                memory::memory(w0, s0),
                w0.pos,
                o.trail,
                ply as int,
                value::height(sing_depth as int) + 1,
                memory::memory(*self, *s),
            );
        }
        let score: i32 = out?;
        proof {
            value::lemma_aside(w0, s0, *s0.cfg, o, *ctx, depth as int, mv, score as int);
        }
        let ghost sb = ctx.alone_beta(s0.cfg.search_params, depth as int);
        assert(sing_beta == sb);
        if score < sing_beta {
            let out: (i32, Option<i32>) = (1, None);
            assert(value::verdict(score as int, sb, ctx.beta as int, out.0 as int, out.1));
            return Ok(out);
        }
        if score >= ctx.beta {
            // Without its best move the search cannot be trusted on the distance of a mate.
            let c: i32 = if is_mate(score) {
                ctx.beta
            } else {
                score
            };
            let out: (i32, Option<i32>) = (0, Some(c));
            assert(value::verdict(score as int, sb, ctx.beta as int, out.0 as int, out.1));
            return Ok(out);
        }
        let out: (i32, Option<i32>) = (0, None);
        assert(value::verdict(score as int, sb, ctx.beta as int, out.0 as int, out.1));
        Ok(out)
    }

    /// What a cutoff teaches: the move is rewarded, and those tried before it are marked
    /// down. A quiet move becomes the first killer.
    pub(crate) fn reward(
        &mut self,
        sp: &SearchParams,
        ply: usize,
        mv: Move,
        depth: i32,
        threats: Bitboard,
        conts: (ContContext, ContContext, ContContext),
        quiets: &Vec<Move>,
        quiet_limit: usize,
        captures: &Vec<Move>,
        capture_limit: usize,
    )
        requires
            old(self).wf(),
            sp.wf(),
            ply < MAX_PLY,
            search::may(old(self).pos, mv),
            -10 <= depth <= 1000,
            conts.0.to.ok(),
            conts.1.to.ok(),
            conts.2.to.ok(),
            quiets_of(quiets@, old(self).pos),
            captures_of(captures@, old(self).pos),
            quiet_limit <= quiets@.len(),
            capture_limit <= captures@.len(),
        ensures
            final(self).wf(),
            final(self).pos == old(self).pos,
            final(self).accumulator == old(self).accumulator,
            final(self).is_nmp_verif == old(self).is_nmp_verif,
            forall|j: int| 0 <= j < STACK_SIZE && j != ply ==> #[trigger] final(self).stack@[j] == old(self).stack@[j],
            final(self).stack@[ply as int].pv == old(self).stack@[ply as int].pv,
            final(self).stack@[ply as int].static_eval == old(self).stack@[ply as int].static_eval,
            final(self).stack@[ply as int].killers == (if !mv.captures() && !mv.promotes() && mv != old(
                self,
            ).stack@[ply as int].killers[0] {
                [mv, old(self).stack@[ply as int].killers[0]]
            } else {
                old(self).stack@[ply as int].killers
            }),
            final(self).history.grown(old(self).history),
            final(self).pawn_cache == old(self).pawn_cache,
            rewarded(
                old(self).history,
                final(self).history,
                old(self).pos,
                mv,
                threats,
                conts,
                quiets@.subrange(0, quiet_limit as int),
                captures@.subrange(0, capture_limit as int),
                prune::earned(depth as int, *sp),
            ),
    {
        let ghost w0 = *self;
        let bonus: i32 = history_bonus(depth, sp);
        let ghost ql = quiets@.subrange(0, quiet_limit as int);
        let ghost cl = captures@.subrange(0, capture_limit as int);
        if mv.is_history_quiet() {
            self.learn_quiet(mv, threats, conts, bonus);
            self.promote_killer(ply, mv);
        } else if mv.is_capture() && !mv.is_promotion() {
            self.learn_capture(mv, bonus);
        }
        let ghost w1 = *self;
        assert(praised(w0.history, w1.history, w0.pos, mv, threats, conts, bonus as int));
        let mut i: usize = 0;
        while i < quiet_limit
            invariant
                ql == quiets@.subrange(0, quiet_limit as int),
                quiets_taught(w1.history, self.history, w0.pos, ql, i as nat, threats, conts, -bonus),
                i <= quiet_limit <= quiets@.len(),
                quiets_of(quiets@, w0.pos),
                self.wf(),
                self.pos == w0.pos,
                self.accumulator == w0.accumulator,
                self.is_nmp_verif == w0.is_nmp_verif,
                self.stack == w1.stack,
                self.history.grown(w0.history),
                self.pawn_cache == w0.pawn_cache,
                conts.0.to.ok(),
                conts.1.to.ok(),
                conts.2.to.ok(),
                0 <= bonus <= 3200,
            decreases quiet_limit - i,
        {
            let ghost h = self.history;
            self.learn_quiet(quiets[i], threats, conts, -bonus);
            proof {
                assert(ql[i as int] == quiets@[i as int]);
                assert(taught_quiet(h, self.history, w0.pos, ql[i + 1 - 1], threats, conts, -bonus));
            }
            i = i + 1;
        }
        let ghost h2 = self.history;
        let mut i: usize = 0;
        while i < capture_limit
            invariant
                cl == captures@.subrange(0, capture_limit as int),
                captures_taught(h2, self.history, w0.pos, cl, i as nat, -bonus),
                i <= capture_limit <= captures@.len(),
                captures_of(captures@, w0.pos),
                self.wf(),
                self.pos == w0.pos,
                self.accumulator == w0.accumulator,
                self.is_nmp_verif == w0.is_nmp_verif,
                self.stack == w1.stack,
                self.history.grown(w0.history),
                self.pawn_cache == w0.pawn_cache,
                0 <= bonus <= 3200,
            decreases capture_limit - i,
        {
            let ghost h = self.history;
            self.learn_capture(captures[i], -bonus);
            proof {
                assert(cl[i as int] == captures@[i as int]);
                assert(taught_capture(h, self.history, w0.pos, cl[i + 1 - 1], -bonus));
            }
            i = i + 1;
        }
        proof {
            reveal(rewarded);
            assert(ql.len() == quiet_limit && cl.len() == capture_limit);
            assert(praised(w0.history, w1.history, w0.pos, mv, threats, conts, bonus as int) && captures_taught(
                h2,
                self.history,
                w0.pos,
                cl,
                cl.len(),
                -bonus,
            ));
        }
    }

    /// Makes a quiet move the first killer at `ply`.
    pub(crate) fn promote_killer(&mut self, ply: usize, mv: Move)
        requires
            old(self).wf(),
            ply < MAX_PLY,
            search::may(old(self).pos, mv),
            !mv.captures(),
            !mv.promotes(),
        ensures
            final(self).apart(
                *old(self),
                ply as int,
                (Stack {
                    killers: if mv == old(self).stack@[ply as int].killers[0] {
                        old(self).stack@[ply as int].killers
                    } else {
                        [mv, old(self).stack@[ply as int].killers[0]]
                    },
                    ..old(self).stack@[ply as int]
                }),
            ),
    {
        proof {
            reveal(Worker::kept);
            reveal(search::may);
        }
        let first = self.stack[ply].killers[0];
        if mv != first {
            self.stack[ply].killers = [mv, first];
        }
        assert(self.stack@ =~= old(self).stack@.update(ply as int, self.stack@[ply as int]));
    }

    /// Moves the quiet histories of a move.
    pub(crate) fn learn_quiet(&mut self, mv: Move, threats: Bitboard, conts: (ContContext, ContContext, ContContext), bonus: i32)
        requires
            old(self).wf(),
            search::may(old(self).pos, mv),
            conts.0.to.ok(),
            conts.1.to.ok(),
            conts.2.to.ok(),
            -3200 <= bonus <= 3200,
        ensures
            final(self).wf(),
            final(self).pos == old(self).pos,
            final(self).accumulator == old(self).accumulator,
            final(self).is_nmp_verif == old(self).is_nmp_verif,
            final(self).stack == old(self).stack,
            taught_quiet(old(self).history, final(self).history, old(self).pos, mv, threats, conts, bonus as int),
            final(self).history.grown(old(self).history),
            final(self).pawn_cache == old(self).pawn_cache,
    {
        proof {
            reveal(Worker::kept);
            reveal(search::may);
            reveal(taught_quiet);
        }
        let stm = self.pos.stm;
        let pt = self.pos.piece_at(mv.from());
        self.history.update(stm, pt, mv.from(), mv.to(), threats, conts.0, conts.1, conts.2, bonus);
        proof {
            history::lemma_grown_by_a_lesson(old(self).history, self.history);
        }
    }

    /// Moves the capture history of a capture. The victim of an en passant capture is a
    /// pawn, wherever it stands.
    pub(crate) fn learn_capture(&mut self, mv: Move, bonus: i32)
        requires
            old(self).wf(),
            search::may(old(self).pos, mv),
            mv.captures(),
            -3200 <= bonus <= 3200,
        ensures
            final(self).wf(),
            final(self).pos == old(self).pos,
            final(self).accumulator == old(self).accumulator,
            final(self).is_nmp_verif == old(self).is_nmp_verif,
            final(self).stack == old(self).stack,
            taught_capture(old(self).history, final(self).history, old(self).pos, mv, bonus as int),
            final(self).history.grown(old(self).history),
            final(self).pawn_cache == old(self).pawn_cache,
    {
        proof {
            reveal(Worker::kept);
            reveal(search::may);
            reveal(taught_capture);
            movepicker::lemma_capture_men(self.pos, mv);
        }
        let attacker = self.pos.piece_at(mv.from());
        let victim = if mv.is_en_passant() {
            PieceType::Pawn
        } else {
            self.pos.piece_at(mv.to())
        };
        let stm = self.pos.stm;
        self.history.update_capture(stm, attacker, mv.to(), victim, bonus);
        proof {
            history::lemma_grown_by_a_lesson(old(self).history, self.history);
        }
    }

    /// The move loop of a node below the root.
    pub(crate) fn search_moves(
        &mut self,
        s: &mut Searcher,
        ctx: &NodeCtx,
        depth: i32,
        alpha: i32,
        Ghost(o): Ghost<Origin>,
    ) -> (r: Result<LoopEnd, SearchAborted>)
        requires
            old(self).wf(),
            old(self).lined(ctx.ply as int),
            old(s).wf(),
            ctx.fits(old(self).pos),
            ctx.ply > 0,
            negamax::window(alpha as int, ctx.beta as int),
            -10 <= depth <= ctx.entry_depth + 1,
            depth == ctx.loop_depth(old(s).cfg.search_params),
            o.trail == old(s).zobrist_trail@,
            value::heir(
                old(self).pos,
                *old(s).cfg,
                o,
                ctx.ply as int,
                value::height(ctx.entry_depth as int),
                memory::memory(*old(self), *old(s)),
            ),
        ensures
            value::heir(
                old(self).pos,
                *old(s).cfg,
                o,
                ctx.ply as int,
                value::height(ctx.entry_depth as int),
                memory::memory(*final(self), *final(s)),
            ),
            negamax::returned(*old(self), *final(self), *old(s), *final(s), ctx.ply as int),
            match r {
                Ok(LoopEnd::Searched(res)) => {
                    &&& res.fits(old(self).pos, ctx.ply as int)
                    &&& res.move_count == 0 <==> step::stuck(old(self).pos, ctx.excluded)
                    &&& res.move_count > 0 && res.best_eval >= ctx.beta ==> cut_taught(
                        old(self).pos,
                        *final(self),
                        ctx.ply as int,
                        res.best_move,
                        prune::earned(depth as int, old(s).cfg.search_params),
                    )
                    &&& res.move_count > 0 ==> value::searched(
                        old(self).pos,
                        *old(s).cfg,
                        o,
                        None,
                        old(self).is_nmp_verif,
                        *ctx,
                        ctx.entry_depth as int,
                        ctx.ply as int,
                        alpha as int,
                        res.best_eval as int,
                    )
                    &&& res.move_count > 0 ==> value::found(
                        old(self).pos,
                        *old(s).cfg,
                        o,
                        None,
                        old(self).is_nmp_verif,
                        *ctx,
                        ctx.entry_depth as int,
                        ctx.ply as int,
                        alpha as int,
                        res.best_eval as int,
                        res.best_move,
                    )
                },
                Ok(LoopEnd::Cut(c)) => {
                    &&& -search::cap(ctx.ply as int) <= c <= search::cap(ctx.ply as int)
                    &&& value::multi_cut(
                        old(self).pos,
                        *old(s).cfg,
                        o,
                        old(self).is_nmp_verif,
                        *ctx,
                        ctx.entry_depth as int,
                        ctx.ply as int,
                        c as int,
                    )
                },
                Err(_) => negamax::aborted(*old(s), *final(s)),
            },
            step::stuck(old(self).pos, ctx.excluded) ==> r is Ok && r->Ok_0 is Searched,
        decreases MAX_PLY + 1 - ctx.ply, ctx.entry_depth, 10int,
    {
        let ply: usize = ctx.ply;
        let ghost w0 = *self;
        let ghost s0 = *s;
        let ghost p = self.pos;
        let threats = self.enemy_reach();
        let conts = self.cont_contexts(ply);
        let mut picker = self.all_moves(s.cfg, ctx, threats, conts);
        let mut res = MoveResult { move_count: 0, best_eval: -INF, alpha, best_move: Move::null() };
        let mut quiets: Vec<Move> = Vec::new();
        let mut captures: Vec<Move> = Vec::new();
        let ghost cfg = *s.cfg;
        let ghost h = value::height(ctx.entry_depth as int);
        let ghost mut log: Seq<(Move, int)> = Seq::empty();
        proof {
            reveal(logs);
        }
        let ghost mut seen: Set<Move> = Set::empty();
        assert(accounted(p, cfg, o, *ctx, depth as int, alpha as int, log, seen)) by {
            reveal(accounted);
        }
        assert(step::passed_over(picker, p, ctx.excluded));
        loop
            invariant
                self.back(w0, ply as int),
                self.lined(ply as int),
                s.wf(),
                s.calm(s0),
                w0 == *old(self),
                s0 == *old(s),
                w0.wf(),
                p == w0.pos,
                ctx.fits(p),
                ply == ctx.ply,
                ply > 0,
                step::picks(picker, p, ctx.pins, ctx.checkers),
                picker.plan.full(),
                conts.0.to.ok(),
                conts.1.to.ok(),
                conts.2.to.ok(),
                res.fits(p, ply as int),
                negamax::window(res.alpha as int, ctx.beta as int),
                quiets_of(quiets@, p),
                captures_of(captures@, p),
                -10 <= depth <= ctx.entry_depth + 1,
                res.move_count == 0 ==> step::passed_over(picker, p, ctx.excluded),
                res.move_count > 0 ==> !step::stuck(p, ctx.excluded),
                res.best_eval <= res.alpha,
                cfg == *s0.cfg,
                o.trail == s0.zobrist_trail@,
                h == value::height(ctx.entry_depth as int),
                value::heir(p, cfg, o, ply as int, h, memory::memory(*self, *s)),
                depth == ctx.loop_depth(cfg.search_params),
                value::reaches(p, threats),
                w0.behind(ply as int, conts),
                step::behind(picker, p, seen),
                accounted(p, cfg, o, *ctx, depth as int, alpha as int, log, seen),
                forall|j: int| 0 <= j < log.len() ==> (#[trigger] log[j]).0 != ctx.excluded,
                (res.move_count > 0) == (log.len() > 0),
                logs(p, cfg, o, w0.is_nmp_verif, *ctx, depth as int, alpha as int, log, res),
            decreases picker.stage.ahead(), picker.pending(),
        {
            let ghost before = picker;
            let mv = match self.next_legal(&mut picker, &ctx.pins, ctx.checkers) {
                Some(m) => m,
                None => {
                    proof {
                        assert(step::behind(before, p, seen));
                        if log.len() > 0 {
                            lemma_accounted_all(p, cfg, o, *ctx, depth as int, alpha as int, log, seen, picker.plan);
                            lemma_logs_done(p, cfg, o, None, w0.is_nmp_verif, *ctx, depth as int, alpha as int, log, res);
                        }
                    }
                    return Ok(LoopEnd::Searched(res));
                },
            };
            let ghost past = seen;
            proof {
                assert(step::behind(before, p, seen));
                seen = seen.insert(mv);
            }
            // The verification weighs every move but the one it set aside.
            if mv == ctx.excluded {
                assert(accounted(p, cfg, o, *ctx, depth as int, alpha as int, log, seen)) by {
                    reveal(accounted);
                }
                continue;
            }
            assert(!step::stuck(p, ctx.excluded)) by {
                reveal(step::stuck);
            }
            let tracked_quiet = mv.is_history_quiet() && quiets.len() < MAX_TRACKED_QUIETS;
            if tracked_quiet {
                quiets.push(mv);
            }
            let tracked_capture = mv.is_capture() && !mv.is_promotion() && captures.len() < MAX_TRACKED_CAPTURES;
            if tracked_capture {
                captures.push(mv);
            }
            if self.is_pruned(&s.cfg.search_params, ctx, mv, depth, &res, threats, conts) {
                assert(accounted(p, cfg, o, *ctx, depth as int, alpha as int, log, seen)) by {
                    reveal(logs);
                    value::lemma_heir_grown(p, cfg, o, ply as int, h, memory::memory(*self, *s));
                    value::lemma_skipped(*self, cfg, o, *ctx, depth as int, alpha as int, log, mv, res, threats, conts);
                    reveal(accounted);
                }
                continue;
            }
            let ghost r1 = res;
            if let Some(c) = self.try_move(s, ctx, mv, depth, &mut res, threats, conts, Ghost(o))? {
                return Ok(LoopEnd::Cut(c));
            }
            proof {
                let e = lemma_logs_push(p, cfg, o, w0.is_nmp_verif, *ctx, depth as int, alpha as int, log, r1, res, mv);
                lemma_accounted_push(p, cfg, o, *ctx, depth as int, alpha as int, log, past, seen, (mv, e));
                log = log.push((mv, e));
            }
            if res.alpha >= ctx.beta {
                proof {
                    lemma_logs_done(p, cfg, o, None, w0.is_nmp_verif, *ctx, depth as int, alpha as int, log, res);
                }
                let quiet_limit: usize = if tracked_quiet {
                    quiets.len() - 1
                } else {
                    quiets.len()
                };
                let capture_limit: usize = if tracked_capture {
                    captures.len() - 1
                } else {
                    captures.len()
                };
                self.count_cutoff(ply);
                let ghost h1 = self.history;
                let ghost wl = *self;
                self.reward(
                    &s.cfg.search_params,
                    ply,
                    mv,
                    depth,
                    threats,
                    conts,
                    &quiets,
                    quiet_limit,
                    &captures,
                    capture_limit,
                );
                proof {
                    value::lemma_heir_learns(
                        p,
                        cfg,
                        o,
                        ply as int,
                        h,
                        memory::memory(wl, *s),
                        memory::memory(*self, *s),
                    );
                }
                assert(cut_taught(
                    p,
                    *self,
                    ply as int,
                    mv,
                    prune::earned(depth as int, s0.cfg.search_params),
                )) by {
                    reveal(cut_taught);
                    let qs = quiets@.subrange(0, quiet_limit as int);
                    let cs = captures@.subrange(0, capture_limit as int);
                    assert(rewarded(
                        h1,
                        self.history,
                        p,
                        mv,
                        threats,
                        conts,
                        qs,
                        cs,
                        prune::earned(depth as int, s0.cfg.search_params),
                    ));
                }
                return Ok(LoopEnd::Searched(res));
            }
        }
    }

    /// What the enemy attacks.
    pub(crate) fn enemy_reach(&self) -> (b: Bitboard)
        requires
            self.wf(),
        ensures
            value::reaches(self.pos, b),
    {
        proof {
            reveal(Worker::kept);
        }
        self.pos.threats(self.pos.stm.opposite())
    }

    /// Reduces or extends a move and searches it. A score is handed back where the table's
    /// move turned out not to be needed.
    pub(crate) fn try_move(
        &mut self,
        s: &mut Searcher,
        ctx: &NodeCtx,
        mv: Move,
        depth: i32,
        res: &mut MoveResult,
        threats: Bitboard,
        conts: (ContContext, ContContext, ContContext),
        Ghost(o): Ghost<Origin>,
    ) -> (r: Result<Option<i32>, SearchAborted>)
        requires
            old(self).wf(),
            old(self).lined(ctx.ply as int),
            old(s).wf(),
            ctx.fits(old(self).pos),
            ctx.ply > 0,
            search::may(old(self).pos, mv),
            old(res).fits(old(self).pos, ctx.ply as int),
            negamax::window(old(res).alpha as int, ctx.beta as int),
            -10 <= depth <= ctx.entry_depth + 1,
            depth == ctx.loop_depth(old(s).cfg.search_params),
            conts.0.to.ok(),
            conts.1.to.ok(),
            conts.2.to.ok(),
            value::reaches(old(self).pos, threats),
            old(self).behind(ctx.ply as int, conts),
            o.trail == old(s).zobrist_trail@,
            value::heir(
                old(self).pos,
                *old(s).cfg,
                o,
                ctx.ply as int,
                value::height(ctx.entry_depth as int),
                memory::memory(*old(self), *old(s)),
            ),
        ensures
            value::heir(
                old(self).pos,
                *old(s).cfg,
                o,
                ctx.ply as int,
                value::height(ctx.entry_depth as int),
                memory::memory(*final(self), *final(s)),
            ),
            negamax::returned(*old(self), *final(self), *old(s), *final(s), ctx.ply as int),
            final(res).alpha >= old(res).alpha,
            match r {
                Ok(Some(c)) => {
                    &&& -search::cap(ctx.ply as int) <= c <= search::cap(ctx.ply as int)
                    &&& value::multi_cut(
                        old(self).pos,
                        *old(s).cfg,
                        o,
                        old(self).is_nmp_verif,
                        *ctx,
                        ctx.entry_depth as int,
                        ctx.ply as int,
                        c as int,
                    )
                },
                Ok(None) => {
                    &&& final(res).fits(old(self).pos, ctx.ply as int)
                    &&& final(res).move_count > 0
                    &&& exists|e: int| #[trigger]
                        entered(*old(res), *final(res), mv, e) && value::tried(
                            old(self).pos,
                            *old(s).cfg,
                            o,
                            old(self).is_nmp_verif,
                            *ctx,
                            ctx.entry_depth as int,
                            ctx.ply as int,
                            depth as int,
                            old(res).alpha as int,
                            old(res).move_count as int,
                            mv,
                            e,
                        )
                },
                Err(_) => negamax::aborted(*old(s), *final(s)),
            },
        decreases MAX_PLY + 1 - ctx.ply, ctx.entry_depth, 9int,
    {
        let ply: usize = ctx.ply;
        let count: usize = if res.move_count < 1_000_000 {
            res.move_count
        } else {
            1_000_000
        };
        let ghost w0 = *self;
        let ghost s0 = *s;
        let ghost cfg = *s.cfg;
        let ghost n = res.move_count as int;
        let ghost r0 = *res;
        let cut: i32 = self.late_reduction(s.cfg, ctx, mv, depth, count, threats, conts);
        proof {
            assert(config::log_place(count + 1) == config::log_place(n + 1));
            value::lemma_heir_grown(
                w0.pos,
                cfg,
                o,
                ply as int,
                value::height(ctx.entry_depth as int),
                memory::memory(w0, s0),
            );
            value::lemma_reduces(w0, cfg, o, *ctx, depth as int, n, mv, threats, conts, cut as int);
            value::lemma_not_asked(w0.pos, cfg, o, w0.is_nmp_verif, *ctx, depth as int, mv);
        }
        let mut extension: i32 = 0;
        if self.asks_singular(&s.cfg.search_params, ctx, mv, depth) {
            let (ext, early) = self.verify_singular(s, ctx, mv, depth, Ghost(o))?;
            proof {
                let y = choose|y: int| #[trigger]
                    value::verdict(
                        y,
                        ctx.alone_beta(cfg.search_params, depth as int),
                        ctx.beta as int,
                        ext as int,
                        early,
                    ) && value::aside(
                        w0.pos,
                        cfg,
                        o,
                        w0.is_nmp_verif,
                        *ctx,
                        ctx.entry_depth as int,
                        ctx.ply as int,
                        depth as int,
                        mv,
                        y,
                    );
                value::lemma_verdict(
                    w0.pos,
                    cfg,
                    o,
                    w0.is_nmp_verif,
                    *ctx,
                    depth as int,
                    mv,
                    y,
                    ext as int,
                    early,
                );
            }
            if let Some(c) = early {
                return Ok(Some(c));
            }
            extension = ext;
        }
        let ghost wl = *self;
        self.note_mover(ply, mv);
        proof {
            value::lemma_heir_learns(
                w0.pos,
                cfg,
                o,
                ply as int,
                value::height(ctx.entry_depth as int),
                memory::memory(wl, *s),
                memory::memory(*self, *s),
            );
        }
        self.search_move(s, ctx, mv, depth, res, None, cut, extension, Ghost(o))?;
        proof {
            let v = choose|e: int| #[trigger]
                entered(r0, *res, mv, e) && value::ran(
                    w0.pos,
                    cfg,
                    o,
                    w0.is_nmp_verif,
                    ctx.node,
                    ctx.beta as int,
                    ctx.entry_depth as int,
                    ctx.ply as int,
                    depth - 1 + extension,
                    cut as int,
                    r0.move_count == 0,
                    r0.alpha as int,
                    mv,
                    e,
                );
            value::lemma_tried(
                w0.pos,
                cfg,
                o,
                w0.is_nmp_verif,
                *ctx,
                depth as int,
                r0.alpha as int,
                n,
                mv,
                cut as int,
                extension == 1,
                v,
            );
        }
        Ok(None)
    }

    /// Notes the man that `mv` moves.
    pub(crate) fn note_mover(&mut self, ply: usize, mv: Move)
        requires
            old(self).wf(),
            ply < STACK_SIZE,
            search::may(old(self).pos, mv),
        ensures
            final(self).apart(
                *old(self),
                ply as int,
                (Stack {
                    moved_pt: old(self).pos.board()[mv.src()]->0.kind,
                    moved_to: final(self).stack@[ply as int].moved_to,
                    ..old(self).stack@[ply as int]
                }),
            ),
            final(self).stack@[ply as int].moved_to.at() == mv.dst(),
    {
        proof {
            reveal(Worker::kept);
            reveal(search::may);
        }
        let pt = self.pos.piece_at(mv.from());
        self.note_man(ply, pt, mv.to());
    }

    /// Whether the table's move came back strong enough from a deep enough search to ask
    /// whether it stands alone.
    pub(crate) fn asks_singular(&self, sp: &SearchParams, ctx: &NodeCtx, mv: Move, depth: i32) -> (r: bool)
        requires
            sp.wf(),
            -10 <= depth <= 1000,
        ensures
            r == ctx.asks_alone(*sp, mv, depth as int),
    {
        let named = match ctx.tt_move {
            Some(m) => m == mv,
            None => false,
        };
        !ctx.node.is_pv() && ctx.excluded.is_null() && named && depth >= sp.singext_min_depth() && ctx.tt.depth >= depth
            - sp.singext_tt_depth() && ctx.tt.bound != Bound::Upper && !is_mate(ctx.tt.score)
    }
}

/// A node in check or on the principal line prunes no move, and no node prunes its first; a
/// capture falls for its exchange alone; and what was not worth searching is not worth it later,
/// or against a higher alpha.
pub proof fn law_what_is_not_pruned(
    w: Worker,
    sp: SearchParams,
    ctx: NodeCtx,
    mv: Move,
    depth: int,
    a: MoveResult,
    b: MoveResult,
    threats: Bitboard,
    conts: (ContContext, ContContext, ContContext),
)
    requires
        sp.wf(),
        a.move_count <= b.move_count,
        a.alpha <= b.alpha,
    ensures
        ctx.in_check || ctx.node != NodeType::NonPvNode ==> !w.prunes(sp, ctx, mv, depth, a, threats, conts),
        a.move_count == 0 ==> !w.prunes(sp, ctx, mv, depth, a, threats, conts),
        mv.captures() && prunings::worth_it(w.pos, mv, prune::see_allowance(true, depth, sp)) ==> !w.prunes(
            sp,
            ctx,
            mv,
            depth,
            a,
            threats,
            conts,
        ),
        w.prunes(sp, ctx, mv, depth, a, threats, conts) ==> w.prunes(sp, ctx, mv, depth, b, threats, conts),
        depth > sp.fp_depth() && depth > sp.lmp_depth() && depth > sp.hist_prune_depth() && prunings::worth_it(
            w.pos,
            mv,
            prune::see_allowance(mv.captures(), depth, sp),
        ) ==> !w.prunes(sp, ctx, mv, depth, a, threats, conts),
{
    assert(depth * depth >= 0) by (nonlinear_arith);
}

/// The search and the picker read the histories of a quiet move alike.
pub proof fn law_histories_are_read_alike(
    w: Worker,
    plan: movepicker::Plan,
    mv: Move,
    threats: Bitboard,
    conts: (ContContext, ContContext, ContContext),
)
    requires
        plan.threats == threats,
        (plan.cont1, plan.cont2, plan.cont4) == conts,
    ensures
        w.quiet_worth(mv, threats, conts) == plan.quiet_worth(w.pos, w.history, mv),
        w.quiet_worth(mv, threats, conts) == w.history.quiet_score(
            w.pos.stm,
            w.pos.board()[mv.src()]->0.kind,
            Square(mv.src() as u8),
            Square(mv.dst() as u8),
            threats,
            conts,
        ),
{
}

/// The best score of a node only grows, is that of a move that was searched, and belongs to the
/// first move that reached it; alpha follows it from below.
pub proof fn law_a_node_keeps_its_best_move(a: MoveResult, b: MoveResult, mv: Move, e: int)
    requires
        entered(a, b, mv, e),
    ensures
        b.best_eval >= a.best_eval && b.best_eval >= e,
        b.best_eval == a.best_eval ==> b.best_move == a.best_move && b.alpha == a.alpha,
        b.best_eval > a.best_eval ==> b.best_eval == e && b.best_move == mv,
        b.alpha >= a.alpha,
        a.best_eval <= a.alpha ==> b.best_eval <= b.alpha && b.alpha == legal::greater(a.alpha as int, e),
        a.move_count < usize::MAX ==> b.move_count == a.move_count + 1,
{
}

/// A quiet move that cuts teaches the quiet tables alone, a capture the capture table alone, and
/// a promotion nothing.
pub proof fn law_a_move_teaches_its_own_kind(
    h: History,
    g: History,
    p: Position,
    mv: Move,
    threats: Bitboard,
    conts: (ContContext, ContContext, ContContext),
    bonus: int,
)
    requires
        praised(h, g, p, mv, threats, conts, bonus),
    ensures
        mv.promotes() ==> g == h,
        mv.captures() ==> g.table == h.table && g.butterfly == h.butterfly && g.cont_near == h.cont_near && g.cont_far == h.cont_far,
        !mv.captures() ==> g.capt == h.capt,
        g.pawn_correction == h.pawn_correction && g.minor_correction == h.minor_correction && g.major_correction
            == h.major_correction && g.caps == h.caps,
{
    reveal(taught_quiet);
    reveal(taught_capture);
}

/// A quiet killer that keeps its exchange and comes early is pruned for futility alone: each ply
/// of depth widens the margin by as much, and the move falls where the evaluation and the margin
/// together do not exceed alpha.
pub proof fn law_futility_has_a_margin_for_each_ply(
    w: Worker,
    sp: SearchParams,
    ctx: NodeCtx,
    mv: Move,
    depth: int,
    res: MoveResult,
    threats: Bitboard,
    conts: (ContContext, ContContext, ContContext),
)
    requires
        !ctx.in_check && ctx.node == NodeType::NonPvNode,
        !mv.captures(),
        mv == w.stack@[ctx.ply as int].killers[0] || mv == w.stack@[ctx.ply as int].killers[1],
        1 <= res.move_count < sp.lmp_base() + depth * depth,
        prunings::worth_it(w.pos, mv, prune::see_allowance(false, depth, sp)),
    ensures
        depth <= sp.fp_depth() && ctx.static_eval + sp.fp_margin() * depth == res.alpha ==> w.prunes(
            sp,
            ctx,
            mv,
            depth,
            res,
            threats,
            conts,
        ),
        ctx.static_eval + sp.fp_margin() * depth == res.alpha + 1 ==> !w.prunes(sp, ctx, mv, depth, res, threats, conts),
        depth > sp.fp_depth() ==> !w.prunes(sp, ctx, mv, depth, res, threats, conts),
{
}

/// A quiet killer that is far above alpha and keeps its exchange is pruned for coming late alone:
/// past as many moves as the base and the square of the depth allow.
pub proof fn law_late_moves_are_allowed_the_square_of_the_depth(
    w: Worker,
    sp: SearchParams,
    ctx: NodeCtx,
    mv: Move,
    depth: int,
    res: MoveResult,
    threats: Bitboard,
    conts: (ContContext, ContContext, ContContext),
)
    requires
        sp.wf(),
        !ctx.in_check && ctx.node == NodeType::NonPvNode,
        !mv.captures(),
        mv == w.stack@[ctx.ply as int].killers[0] || mv == w.stack@[ctx.ply as int].killers[1],
        ctx.static_eval > res.alpha,
        depth >= 0,
        prunings::worth_it(w.pos, mv, prune::see_allowance(false, depth, sp)),
    ensures
        depth <= sp.lmp_depth() && res.move_count == sp.lmp_base() + depth * depth ==> w.prunes(
            sp,
            ctx,
            mv,
            depth,
            res,
            threats,
            conts,
        ),
        res.move_count + 1 == sp.lmp_base() + depth * depth ==> !w.prunes(sp, ctx, mv, depth, res, threats, conts),
        depth > sp.lmp_depth() ==> !w.prunes(sp, ctx, mv, depth, res, threats, conts),
{
    let m = sp.fp_margin() as int;
    assert(m * depth >= 0) by (nonlinear_arith)
        requires
            m >= 0,
            depth >= 0,
    ;
}

/// A quiet move that is far above alpha, early, no killer and keeps its exchange is pruned for
/// its history alone: where that lies below the margin of the depth.
pub proof fn law_history_has_a_margin_for_each_ply(
    w: Worker,
    sp: SearchParams,
    ctx: NodeCtx,
    mv: Move,
    depth: int,
    res: MoveResult,
    threats: Bitboard,
    conts: (ContContext, ContContext, ContContext),
)
    requires
        sp.wf(),
        !ctx.in_check && ctx.node == NodeType::NonPvNode,
        !mv.captures() && !mv.promotes(),
        mv != w.stack@[ctx.ply as int].killers[0] && mv != w.stack@[ctx.ply as int].killers[1],
        ctx.static_eval > res.alpha,
        depth >= 0,
        1 <= res.move_count < sp.lmp_base() + depth * depth,
        prunings::worth_it(w.pos, mv, prune::see_allowance(false, depth, sp)),
    ensures
        depth <= sp.hist_prune_depth() && w.quiet_worth(mv, threats, conts) == -(sp.hist_prune_margin() * depth) - 1 ==> w.prunes(
            sp,
            ctx,
            mv,
            depth,
            res,
            threats,
            conts,
        ),
        w.quiet_worth(mv, threats, conts) == -(sp.hist_prune_margin() * depth) ==> !w.prunes(
            sp,
            ctx,
            mv,
            depth,
            res,
            threats,
            conts,
        ),
        depth > sp.hist_prune_depth() ==> !w.prunes(sp, ctx, mv, depth, res, threats, conts),
{
    let m = sp.fp_margin() as int;
    assert(m * depth >= 0) by (nonlinear_arith)
        requires
            m >= 0,
            depth >= 0,
    ;
}

/// A move that was tried before and loses more than its exchange may is pruned, and a capture for
/// that alone.
pub proof fn law_moves_fall_with_their_exchange(
    w: Worker,
    sp: SearchParams,
    ctx: NodeCtx,
    mv: Move,
    depth: int,
    res: MoveResult,
    threats: Bitboard,
    conts: (ContContext, ContContext, ContContext),
)
    requires
        !ctx.in_check && ctx.node == NodeType::NonPvNode,
        res.move_count >= 1,
        !mv.castles(),
    ensures
        see::exchange(w.pos, mv) < prune::see_allowance(mv.captures(), depth, sp) ==> w.prunes(
            sp,
            ctx,
            mv,
            depth,
            res,
            threats,
            conts,
        ),
        mv.captures() && see::exchange(w.pos, mv) >= prune::see_allowance(true, depth, sp) ==> !w.prunes(
            sp,
            ctx,
            mv,
            depth,
            res,
            threats,
            conts,
        ),
{
}

/// A killer is reduced less than another move, a move in a node that does not improve more, and
/// each move by its place in the order, counted from one.
pub proof fn law_late_moves_are_reduced_by_their_place(
    w: Worker,
    cfg: SearchConfig,
    ctx: NodeCtx,
    mv: Move,
    depth: int,
    n: int,
    threats: Bitboard,
    conts: (ContContext, ContContext, ContContext),
)
    ensures
        w.lateness(cfg, ctx, mv, depth, n, threats, conts) == prune::reduced(
            cfg.lmr_spec(depth, n + 1),
            w.stack@[ctx.ply as int].killers@.contains(mv),
            Worker::fresh_threats(w.pos, mv),
            w.stack@[ctx.ply + 1].cutoff_count as int,
            ctx.improving,
            w.quiet_worth(mv, threats, conts),
            depth,
            cfg.search_params,
        ),
{
    let k = w.stack@[ctx.ply as int].killers;
    assert(k@[0] == k[0] && k@[1] == k[1]);
    if k@.contains(mv) {
        let i = choose|i: int| 0 <= i < k@.len() && k@[i] == mv;
        assert(i == 0 || i == 1);
    }
}

} // verus!
