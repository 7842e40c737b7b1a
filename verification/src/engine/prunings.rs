//! The prunings that settle a scout before its moves are searched.

use vstd::prelude::*;

use crate::chess::defs::{is_loss, is_mate, is_win, MATE_BOUND, MAX_PLY};
use crate::chess::legal;
use crate::chess::moves::Move;
use crate::chess::pins::Pins;
use crate::chess::position::Position;
use crate::chess::types::{PieceType, Square};
use crate::engine::config::SearchConfig;
use crate::engine::memory::{self, Origin};
use crate::engine::movepicker;
use crate::engine::negamax;
use crate::engine::prune::{null_depth, razors, rfp_cutoff};
use crate::engine::search::{self, NodeCtx, NodeType, SearchAborted, Searcher, Worker};
use crate::engine::see::{self, see_ge};
use crate::engine::step;
use crate::engine::tt::{clamp_to_bound, Bound};
use crate::engine::value;

verus! {

broadcast use {
    crate::engine::history::lemma_grown_same,
    crate::engine::history::lemma_grown_further,
    crate::engine::memory::lemma_furnished_same,
    crate::engine::memory::lemma_furnished_further,
};

impl Worker {
    /// Null move pruning: a position so good that passing the turn still beats beta after a
    /// reduced search would not have been allowed by the opponent. Deep cutoffs are
    /// verified without the null move, which catches the positions where passing is the
    /// best move.
    pub(crate) fn try_null(
        &mut self,
        s: &mut Searcher,
        ctx: &NodeCtx,
        lead: i32,
        Ghost(o): Ghost<Origin>,
    ) -> (r: Result<Option<i32>, SearchAborted>)
        requires
            old(self).wf(),
            old(self).lined(ctx.ply as int),
            old(s).wf(),
            ctx.fits(old(self).pos),
            !ctx.in_check,
            ctx.node == NodeType::NonPvNode,
            !old(self).is_nmp_verif,
            ctx.beta <= lead <= MATE_BOUND,
            ctx.prunable(),
            lead == ctx.lead(),
            ctx.passable(old(self).pos),
            o.trail == old(s).zobrist_trail@,
            value::heir(
                old(self).pos,
                *old(s).cfg,
                o,
                ctx.ply as int,
                value::height(ctx.entry_depth as int),
                memory::memory(*old(self), *old(s)),
            ),
        ensures
            negamax::returned(*old(self), *final(self), *old(s), *final(s), ctx.ply as int),
            value::heir(
                old(self).pos,
                *old(s).cfg,
                o,
                ctx.ply as int,
                value::height(ctx.entry_depth as int),
                memory::memory(*final(self), *final(s)),
            ),
            match r {
                Ok(Some(x)) => {
                    &&& ctx.beta <= x <= search::cap(ctx.ply as int)
                    &&& value::null_cut(
                        old(self).pos,
                        *old(s).cfg,
                        o,
                        *ctx,
                        ctx.entry_depth as int,
                        ctx.ply as int,
                        x as int,
                    )
                },
                Ok(None) => forall|after_null: bool| #[trigger]
                    value::null_failed(
                        old(self).pos,
                        *old(s).cfg,
                        o,
                        old(self).is_nmp_verif,
                        *ctx,
                        ctx.entry_depth as int,
                        ctx.ply as int,
                        after_null,
                    ),
                Err(_) => negamax::aborted(*old(s), *final(s)),
            },
        decreases MAX_PLY + 1 - ctx.ply, ctx.entry_depth, 9int,
    {
        let ply: usize = ctx.ply;
        let beta: i32 = ctx.beta;
        let depth: i32 = ctx.entry_depth;
        let ghost s0 = *s;
        let nd: i32 = null_depth(depth, lead, beta, &s.cfg.search_params);
        let ghost wl = *self;
        self.note_pass(ply);
        let ghost w1 = *self;
        proof {
            value::lemma_heir_learns(
                wl.pos,
                *s0.cfg,
                o,
                ply as int,
                value::height(depth as int),
                memory::memory(wl, s0),
                memory::memory(w1, s0),
            );
        }
        assert(!step::checked(self.pos)) by {
            reveal(NodeCtx::sees);
        }
        let undo = self.pass(s);
        let ghost wn = *self;
        let ghost sn = *s;
        let ghost p = w1.pos;
        let ghost cfg = *s0.cfg;
        let ghost h = value::height(depth as int);
        proof {
            assert(memory::memory(wn, sn) == memory::memory(w1, s0));
        }
        let out = self.negamax(s, NodeType::NonPvNode, nd, -beta, -beta + 1, ply + 1, Move::null(), true);
        let ghost m1 = memory::memory(*self, *s);
        self.retreat(s, undo, Ghost(w1));
        assert(s.zobrist_trail@ =~= s0.zobrist_trail@);
        proof {
            assert(memory::stepped(p, wn.pos));
            memory::lemma_visits_next(p, o.trail, wn.pos);
            assert(memory::memory(*self, *s) == m1);
            value::lemma_heir_goes_on(
                p,
                cfg,
                o,
                ply as int,
                h,
                memory::memory(wn, sn),
                wn.pos,
                sn.zobrist_trail@,
                ply + 1,
                value::height(nd as int) + 1,
                m1,
            );
            memory::lemma_furnished_above(self.pawn_cache, wn.pawn_cache, p, wn.pos);
        }
        let x: i32 = out?;
        let score: i32 = -x;
        if score >= beta && !is_loss(score) {
            let null_score: i32 = if is_win(score) {
                beta
            } else {
                score
            };
            if depth <= s.cfg.search_params.nmp_verif_min_depth() {
                proof {
                    value::lemma_null_cut(
                        w1.pos,
                        *s0.cfg,
                        o,
                        *ctx,
                        wn,
                        sn,
                        score as int,
                        wn,
                        sn,
                        0,
                        null_score as int,
                    );
                }
                return Ok(Some(null_score));
            }
            self.set_verifying(true);
            let ghost wv = *self;
            let ghost sv = *s;
            let verif = self.negamax(s, NodeType::NonPvNode, nd, beta - 1, beta, ply, Move::null(), false);
            self.set_verifying(false);
            proof {
                memory::lemma_visits_here(p, o.trail);
                value::lemma_heir_goes_on(
                    p,
                    cfg,
                    o,
                    ply as int,
                    h,
                    memory::memory(wv, sv),
                    p,
                    o.trail,
                    ply as int,
                    value::height(nd as int) + 1,
                    memory::memory(*self, *s),
                );
            }
            let v: i32 = verif?;
            if v >= beta {
                proof {
                    value::lemma_null_cut(
                        w1.pos,
                        *s0.cfg,
                        o,
                        *ctx,
                        wn,
                        sn,
                        score as int,
                        wv,
                        sv,
                        v as int,
                        null_score as int,
                    );
                }
                return Ok(Some(null_score));
            }
            assert forall|after_null: bool| #[trigger]
                value::null_failed(
                    w1.pos,
                    *s0.cfg,
                    o,
                    w1.is_nmp_verif,
                    *ctx,
                    depth as int,
                    ply as int,
                    after_null,
                ) by {
                value::lemma_null_failed(
                    w1.pos,
                    *s0.cfg,
                    o,
                    w1.is_nmp_verif,
                    *ctx,
                    after_null,
                    wn,
                    sn,
                    score as int,
                    Some(v as int),
                    wv,
                    sv,
                );
            }
            return Ok(None);
        }
        assert forall|after_null: bool| #[trigger]
            value::null_failed(
                w1.pos,
                *s0.cfg,
                o,
                w1.is_nmp_verif,
                *ctx,
                depth as int,
                ply as int,
                after_null,
            ) by {
            value::lemma_null_failed(
                w1.pos,
                *s0.cfg,
                o,
                w1.is_nmp_verif,
                *ctx,
                after_null,
                wn,
                sn,
                score as int,
                None,
                wn,
                sn,
            );
        }
        Ok(None)
    }

    /// ProbCut: a capture that clears a raised beta in a shallow search would almost surely
    /// clear beta at full depth. The quiescence search filters, a reduced search confirms.
    pub(crate) fn try_probcut(
        &mut self,
        s: &mut Searcher,
        ctx: &NodeCtx,
        depth: i32,
        Ghost(we): Ghost<Worker>,
        Ghost(se): Ghost<Searcher>,
    ) -> (r: Result<Option<i32>, SearchAborted>)
        requires
            old(self).wf(),
            old(self).lined(ctx.ply as int),
            old(s).wf(),
            ctx.fits(old(self).pos),
            !ctx.in_check,
            -MATE_BOUND < ctx.beta < MATE_BOUND,
            ctx.prunable(),
            depth == ctx.entry_depth,
            depth >= old(s).cfg.search_params.probcut_depth_min(),
            ctx.raisable(old(s).cfg.search_params),
            born(we, se, *old(self), *old(s), *ctx),
        ensures
            negamax::returned(*old(self), *final(self), *old(s), *final(s), ctx.ply as int),
            r == Ok::<Option<i32>, SearchAborted>(None) || r is Err ==> value::heir(
                old(self).pos,
                *old(s).cfg,
                value::outlook(we, se, *ctx),
                ctx.ply as int,
                value::height(ctx.entry_depth as int),
                memory::memory(*final(self), *final(s)),
            ),
            value::heir(
                old(self).pos,
                *old(s).cfg,
                value::outlook(we, se, *ctx),
                ctx.ply as int,
                value::height(ctx.entry_depth as int) + 1,
                memory::memory(*final(self), *final(s)),
            ),
            match r {
                Ok(Some(x)) => {
                    &&& ctx.beta + old(s).cfg.search_params.probcut_margin() <= x <= search::cap(ctx.ply as int)
                    &&& value::prob_cut(
                        old(self).pos,
                        *old(s).cfg,
                        value::outlook(we, se, *ctx),
                        old(self).is_nmp_verif,
                        *ctx,
                        ctx.entry_depth as int,
                        ctx.ply as int,
                        x as int,
                    )
                },
                Ok(None) => value::prob_failed(
                    old(self).pos,
                    *old(s).cfg,
                    value::outlook(we, se, *ctx),
                    old(self).is_nmp_verif,
                    *ctx,
                    ctx.entry_depth as int,
                    ctx.ply as int,
                ),
                Err(_) => negamax::aborted(*old(s), *final(s)),
            },
        decreases MAX_PLY + 1 - ctx.ply, ctx.entry_depth, 9int,
    {
        let ply: usize = ctx.ply;
        let ghost w0 = *self;
        let ghost s0 = *s;
        let raised: i32 = ctx.beta + s.cfg.search_params.probcut_margin();
        let shallow: i32 = if depth - 4 > 1 {
            depth - 4
        } else {
            1
        };
        assert(step::pinning(self.pos, ctx.pins) && step::checking(self.pos, ctx.checkers) && step::names(self.pos, None))
            by {
            reveal(NodeCtx::sees);
            reveal(step::pinning);
            reveal(step::checking);
            reveal(step::names);
        }
        let mut picker = self.tactics(s.cfg, None, ctx.pins, ctx.checkers, false);
        let ghost p = self.pos;
        let ghost cfg = *s.cfg;
        let ghost o = value::outlook(we, se, *ctx);
        let ghost h = value::height(ctx.entry_depth as int);
        proof {
            reveal(born);
        }
        let ghost verifying = self.is_nmp_verif;
        let ghost mut seen: Set<Move> = Set::empty();
        assert(weighed(p, cfg, o, verifying, *ctx, raised as int, shallow as int, seen)) by {
            reveal(weighed);
        }
        loop
            invariant
                self.back(w0, ply as int),
                self.lined(ply as int),
                s.wf(),
                s.calm(s0),
                w0 == *old(self),
                s0 == *old(s),
                w0.wf(),
                ctx.fits(w0.pos),
                !ctx.in_check,
                ply == ctx.ply,
                step::picks(picker, w0.pos, ctx.pins, ctx.checkers),
                -30_000 <= raised <= 30_103,
                raised == ctx.beta + s0.cfg.search_params.probcut_margin(),
                1 <= shallow <= 250 + ply,
                shallow == legal::greater(ctx.entry_depth - 4, 1),
                -MATE_BOUND < ctx.beta < MATE_BOUND,
                ctx.prunable(),
                ctx.entry_depth >= s0.cfg.search_params.probcut_depth_min(),
                !picker.plan.full(),
                picker.plan.hash_move is None,
                ctx.raisable(cfg.search_params),
                p == w0.pos,
                cfg == *s0.cfg,
                o == value::outlook(we, se, *ctx),
                o.trail == s0.zobrist_trail@,
                born(we, se, w0, s0, *ctx),
                h == value::height(ctx.entry_depth as int),
                value::heir(p, cfg, o, ply as int, h, memory::memory(*self, *s)),
                verifying == w0.is_nmp_verif,
                step::behind(picker, p, seen),
                weighed(p, cfg, o, verifying, *ctx, raised as int, shallow as int, seen),
            decreases picker.stage.ahead(), picker.pending(),
        {
            let ghost before = picker;
            let mv = match self.next_legal(&mut picker, &ctx.pins, ctx.checkers) {
                Some(m) => m,
                None => {
                    proof {
                        value::lemma_heir_wider(p, cfg, o, ply as int, h, h + 1, memory::memory(*self, *s));
                        assert(step::behind(before, p, seen));
                        lemma_weighed_all(p, cfg, o, verifying, *ctx, raised as int, shallow as int, seen, picker.plan);
                    }
                    return Ok(None);
                },
            };
            proof {
                assert(step::behind(before, p, seen));
                seen = seen.insert(mv);
            }
            if !self.clears(mv, raised - ctx.static_eval, ctx) {
                assert(weighed(p, cfg, o, verifying, *ctx, raised as int, shallow as int, seen)) by {
                    reveal(weighed);
                }
                continue;
            }
            let out = self.probe_cut(s, ctx, mv, raised, shallow, Ghost(o));
            proof {
                value::lemma_heir_wider(p, cfg, o, ply as int, h, h + 1, memory::memory(*self, *s));
            }
            let value: i32 = out?;
            if value >= raised {
                proof {
                    value::lemma_prob_cut(p, cfg, o, verifying, *ctx, mv, value as int);
                }
                assert(mv.canonical()) by {
                    reveal(search::may);
                }
                let ghost s1 = *s;
                negamax::remember(s, self.pos.hash, ply, shallow, value, mv, Bound::Lower, ctx.tt.pv, ctx.raw_eval);
                proof {
                    let f = value::Find {
                        way: value::Way::Capture,
                        node: ctx.node,
                        depth: ctx.entry_depth as int,
                        alpha: 0,
                        beta: ctx.beta as int,
                        ply: ply as int,
                        after_null: false,
                        prev: None,
                        qs_ply: 0,
                        ctx: *ctx,
                        raw: 0,
                        x: value as int,
                        mv,
                    };
                    reveal(born);
                    assert(value::reported(cfg, we, se, f)) by {
                        reveal(value::reported);
                    }
                    value::lemma_heir_stores(
                        we,
                        se,
                        o,
                        ply as int,
                        h + 1,
                        memory::memory(*self, s1),
                        memory::memory(*self, *s),
                        f,
                    );
                }
                return Ok(Some(value));
            }
            assert(weighed(p, cfg, o, verifying, *ctx, raised as int, shallow as int, seen)) by {
                reveal(weighed);
                let depth: int = ctx.entry_depth as int;
                assert(value::turned_down(p, cfg, o, verifying, mv, depth, ply as int, raised as int, shallow as int)) by {
                    reveal(value::turned_down);
                    assert(value::stays_below(value as int, raised as int));
                }
            }
        }
    }

    /// What a capture brings against a raised beta.
    pub(crate) fn probe_cut(
        &mut self,
        s: &mut Searcher,
        ctx: &NodeCtx,
        mv: Move,
        raised: i32,
        shallow: i32,
        Ghost(o): Ghost<Origin>,
    ) -> (r: Result<i32, SearchAborted>)
        requires
            old(self).wf(),
            old(self).lined(ctx.ply as int),
            old(s).wf(),
            ctx.ranges(),
            search::may(old(self).pos, mv),
            -30_000 <= raised <= 30_103,
            1 <= shallow <= 250 + ctx.ply,
            o.trail == old(s).zobrist_trail@,
            value::heir(
                old(self).pos,
                *old(s).cfg,
                o,
                ctx.ply as int,
                value::height(ctx.entry_depth as int),
                memory::memory(*old(self), *old(s)),
            ),
        ensures
            negamax::returned(*old(self), *final(self), *old(s), *final(s), ctx.ply as int),
            value::heir(
                old(self).pos,
                *old(s).cfg,
                o,
                ctx.ply as int,
                value::height(ctx.entry_depth as int),
                memory::memory(*final(self), *final(s)),
            ),
            negamax::answered(r, *old(s), *final(s), ctx.ply as int),
            r matches Ok(x) ==> value::probed(
                old(self).pos,
                *old(s).cfg,
                o,
                old(self).is_nmp_verif,
                mv,
                ctx.entry_depth as int,
                ctx.ply as int,
                raised as int,
                shallow as int,
                x as int,
            ),
        decreases MAX_PLY + 1 - ctx.ply, ctx.entry_depth, 8int,
    {
        let ply: usize = ctx.ply;
        let ghost w0 = *self;
        let ghost s0 = *s;
        let undo = self.advance(s, mv);
        let ghost wq = *self;
        let ghost sq = *s;
        let ghost p = w0.pos;
        let ghost cfg = *s0.cfg;
        let ghost h = value::height(ctx.entry_depth as int);
        proof {
            assert(memory::memory(wq, sq) == memory::memory(w0, s0));
            assert(memory::stepped(p, wq.pos));
            memory::lemma_visits_next(p, o.trail, wq.pos);
        }
        let to = mv.to();
        assert(to == Square(mv.dst() as u8));
        let first = self.qsearch(s, NodeType::NonPvNode, -raised, -raised + 1, ply + 1, Some(to), 0);
        let ghost m1 = memory::memory(*self, *s);
        proof {
            value::lemma_heir_goes_on(
                p,
                cfg,
                o,
                ply as int,
                h,
                memory::memory(wq, sq),
                wq.pos,
                sq.zobrist_trail@,
                ply + 1,
                1,
                m1,
            );
        }
        let ghost mut m2 = m1;
        let value = match first {
            Ok(v) => {
                proof {
                    value::lemma_filtered(
                        w0.pos,
                        mv,
                        wq,
                        sq,
                        *s0.cfg,
                        o,
                        ctx.entry_depth as int,
                        ply as int,
                        raised as int,
                        to,
                        v as int,
                    );
                }
                if -v >= raised {
                    let ghost w1 = *self;
                    let ghost s1 = *s;
                    let out = self.negamax(s, NodeType::NonPvNode, shallow, -raised, -raised + 1, ply + 1, Move::null(), false);
                    proof {
                        m2 = memory::memory(*self, *s);
                        value::lemma_heir_goes_on(
                            p,
                            cfg,
                            o,
                            ply as int,
                            h,
                            m1,
                            w1.pos,
                            s1.zobrist_trail@,
                            ply + 1,
                            value::height(shallow as int) + 1,
                            m2,
                        );
                    }
                    match out {
                        Ok(x) => {
                            proof {
                                value::lemma_probed(
                                    w0.pos,
                                    mv,
                                    w1,
                                    s1,
                                    *s0.cfg,
                                    o,
                                    ctx.entry_depth as int,
                                    ply as int,
                                    raised as int,
                                    shallow as int,
                                    -v as int,
                                    x as int,
                                );
                            }
                            Ok(-x)
                        },
                        Err(e) => Err(e),
                    }
                } else {
                    proof {
                        value::lemma_stopped(
                            w0.pos,
                            *s0.cfg,
                            o,
                            w0.is_nmp_verif,
                            mv,
                            ctx.entry_depth as int,
                            ply as int,
                            raised as int,
                            shallow as int,
                            -v as int,
                        );
                    }
                    Ok(-v)
                }
            },
            Err(e) => Err(e),
        };
        let ghost wl = *self;
        self.retreat(s, undo, Ghost(w0));
        assert(s.zobrist_trail@ =~= s0.zobrist_trail@);
        proof {
            assert(memory::memory(*self, *s) == m2);
            memory::lemma_furnished_above(wl.pawn_cache, wq.pawn_cache, p, wq.pos);
        }
        value
    }

    /// Whether the exchange that a legal move opens brings at least `threshold`.
    pub(crate) fn clears(&self, mv: Move, threshold: i32, ctx: &NodeCtx) -> (r: bool)
        requires
            self.wf(),
            search::may(self.pos, mv),
            ctx.fits(self.pos),
            -1_000_000_000 <= threshold <= 1_000_000_000,
        ensures
            r == worth_it(self.pos, mv, threshold as int),
    {
        proof {
            reveal(Worker::kept);
            reveal(NodeCtx::sees);
            reveal(search::may);
        }
        clears(&self.pos, mv, threshold, &ctx.pins)
    }

    /// Marks a verification of a null move as running or not.
    pub(crate) fn set_verifying(&mut self, on: bool)
        requires
            old(self).wf(),
        ensures
            final(self).wf(),
            final(self).is_nmp_verif == on,
            final(self).pawn_cache == old(self).pawn_cache,
            final(self).pos == old(self).pos,
            final(self).accumulator == old(self).accumulator,
            final(self).stack == old(self).stack,
            final(self).history == old(self).history,
    {
        proof {
            reveal(Worker::kept);
        }
        self.is_nmp_verif = on;
    }
}

/// The node was entered with `we` and `se` and sees `ctx`; what `w` and `s` remember was added
/// below it.
#[verifier::opaque]
pub open spec fn born(we: Worker, se: Searcher, w: Worker, s: Searcher, ctx: NodeCtx) -> bool {
    &&& we.wf() && se.wf()
    &&& we.pos == w.pos
    &&& *se.cfg == *s.cfg
    &&& se.zobrist_trail@ == s.zobrist_trail@
    &&& we.is_nmp_verif == w.is_nmp_verif
    &&& value::surveyed(
        we,
        se,
        ctx.node,
        ctx.entry_depth as int,
        ctx.beta as int,
        ctx.ply as int,
        Move(0),
        ctx,
    )
    &&& value::heir(
        we.pos,
        *se.cfg,
        value::outlook(we, se, ctx),
        ctx.ply as int,
        value::height(ctx.entry_depth as int),
        memory::memory(w, s),
    )
}

/// The captures seen so far that hold their exchange were probed and stayed below.
#[verifier::opaque]
spec fn weighed(
    p: Position,
    cfg: SearchConfig,
    o: Origin,
    verifying: bool,
    ctx: NodeCtx,
    raised: int,
    shallow: int,
    seen: Set<Move>,
) -> bool {
    forall|m: Move| #[trigger]
        seen.contains(m) && worth_it(p, m, raised - ctx.static_eval) ==> value::turned_down(
            p,
            cfg,
            o,
            verifying,
            m,
            ctx.entry_depth as int,
            ctx.ply as int,
            raised,
            shallow,
        )
}

proof fn lemma_weighed_all(
    p: Position,
    cfg: SearchConfig,
    o: Origin,
    verifying: bool,
    ctx: NodeCtx,
    raised: int,
    shallow: int,
    seen: Set<Move>,
    plan: movepicker::Plan,
)
    requires
        weighed(p, cfg, o, verifying, ctx, raised, shallow, seen),
        step::exhausts(plan, p, seen),
        raised == ctx.beta + cfg.search_params.probcut_margin(),
        shallow == legal::greater(ctx.entry_depth - 4, 1),
    ensures
        value::prob_failed(p, cfg, o, verifying, ctx, ctx.entry_depth as int, ctx.ply as int),
{
    reveal(weighed);
    reveal(step::exhausts);
    assert forall|m: Move| #[trigger]
        search::may(p, m) && (m.captures() || m.flag() == Move::PROM_Q) && worth_it(p, m, raised - ctx.static_eval) implies value::turned_down(
        p,
        cfg,
        o,
        verifying,
        m,
        ctx.entry_depth as int,
        ctx.ply as int,
        raised,
        shallow,
    ) by {
        reveal(search::may);
        assert(plan.offered(p, m));
        assert(seen.contains(m));
    }
    value::lemma_prob_failed(p, cfg, o, verifying, ctx);
}

/// [`see_ge`] of a legal move.
pub(crate) fn clears(pos: &Position, mv: Move, threshold: i32, pins: &Pins) -> (r: bool)
    requires
        pos.wf(),
        legal::pseudo_legal(*pos, mv),
        pins.of(*pos),
        -1_000_000_000 <= threshold <= 1_000_000_000,
    ensures
        r == worth_it(*pos, mv, threshold as int),
{
    proof {
        if mv.takes_ep() {
            assert(pos.board()[mv.src()]->0.kind == PieceType::Pawn);
            assert(pos.en_passant matches Some(q) && q.at() == mv.dst());
        }
    }
    see_ge(pos, mv, threshold, pins)
}

/// Whether the exchange that `mv` opens brings at least `threshold`.
pub open spec fn worth_it(p: Position, mv: Move, threshold: int) -> bool {
    if mv.castles() {
        threshold <= 0
    } else {
        see::exchange(p, mv) >= threshold
    }
}

impl Worker {
    /// The prunings of a scout's node that is not in check: reverse futility, razoring, the
    /// null move and ProbCut.
    pub(crate) fn try_prunings(
        &mut self,
        s: &mut Searcher,
        ctx: &NodeCtx,
        alpha: i32,
        after_null: bool,
        Ghost(we): Ghost<Worker>,
        Ghost(se): Ghost<Searcher>,
    ) -> (r: Result<Option<i32>, SearchAborted>)
        requires
            old(self).wf(),
            old(self).lined(ctx.ply as int),
            old(s).wf(),
            ctx.fits(old(self).pos),
            !ctx.in_check,
            ctx.prunable(),
            negamax::window(alpha as int, ctx.beta as int),
            born(we, se, *old(self), *old(s), *ctx),
        ensures
            negamax::returned(*old(self), *final(self), *old(s), *final(s), ctx.ply as int),
            !(r matches Ok(Some(_))) ==> value::heir(
                old(self).pos,
                *old(s).cfg,
                value::outlook(we, se, *ctx),
                ctx.ply as int,
                value::height(ctx.entry_depth as int),
                memory::memory(*final(self), *final(s)),
            ),
            value::heir(
                old(self).pos,
                *old(s).cfg,
                value::outlook(we, se, *ctx),
                ctx.ply as int,
                value::height(ctx.entry_depth as int) + 1,
                memory::memory(*final(self), *final(s)),
            ),
            match r {
                Ok(Some(x)) => {
                    &&& -search::cap(ctx.ply as int) <= x <= search::cap(ctx.ply as int)
                    &&& x <= alpha || x >= ctx.beta
                    &&& value::early(
                        old(self).pos,
                        *old(s).cfg,
                        value::outlook(we, se, *ctx),
                        value::roots_of(*old(s), ctx.ply as int),
                        old(self).is_nmp_verif,
                        *ctx,
                        ctx.entry_depth as int,
                        ctx.ply as int,
                        alpha as int,
                        after_null,
                        x as int,
                    )
                },
                Ok(None) => {
                    &&& !ctx.far_above(old(s).cfg.search_params)
                    &&& value::held_out(
                        old(self).pos,
                        *old(s).cfg,
                        value::outlook(we, se, *ctx),
                        old(self).is_nmp_verif,
                        *ctx,
                        ctx.entry_depth as int,
                        ctx.ply as int,
                        alpha as int,
                        after_null,
                    )
                },
                Err(_) => negamax::aborted(*old(s), *final(s)),
            },
        decreases MAX_PLY + 1 - ctx.ply, ctx.entry_depth, 10int,
    {
        let ply: usize = ctx.ply;
        let beta: i32 = ctx.beta;
        let depth: i32 = ctx.entry_depth;
        let ghost p = self.pos;
        let ghost cfg = *s.cfg;
        let ghost o = value::outlook(we, se, *ctx);
        let ghost h = value::height(depth as int);
        proof {
            reveal(born);
            value::lemma_heir_wider(p, cfg, o, ply as int, h, h + 1, memory::memory(*self, *s));
        }
        let ghost roots = value::roots_of(*s, ply as int);
        let ghost verifying = self.is_nmp_verif;
        // A mate score is a distance, not a valuation: it never stands in for one.
        let lead: i32 = if is_mate(ctx.tt.score) {
            ctx.static_eval
        } else {
            clamp_to_bound(ctx.tt.bound, ctx.tt.score, ctx.static_eval)
        };
        if depth <= s.cfg.search_params.rfp_depth() && !is_mate(lead) {
            if let Some(x) = rfp_cutoff(lead, beta, depth, ctx.improving, &s.cfg.search_params) {
                proof {
                    value::lemma_early(
                        p,
                        cfg,
                        o,
                        roots,
                        verifying,
                        *ctx,
                        alpha as int,
                        after_null,
                        x as int,
                    );
                }
                return Ok(Some(x));
            }
        }
        proof {
            value::lemma_spared(p, cfg, o, verifying, *ctx, alpha as int, after_null);
        }
        if razors(ctx.static_eval, alpha, depth, &s.cfg.search_params) {
            let ghost w1 = *self;
            let ghost s1 = *s;
            let out = self.qsearch(s, ctx.node, alpha, beta, ply, None, 0);
            proof {
                memory::lemma_visits_here(p, o.trail);
                value::lemma_heir_goes_on(
                    p,
                    cfg,
                    o,
                    ply as int,
                    h,
                    memory::memory(w1, s1),
                    p,
                    o.trail,
                    ply as int,
                    1,
                    memory::memory(*self, *s),
                );
                value::lemma_heir_wider(p, cfg, o, ply as int, h, h + 1, memory::memory(*self, *s));
            }
            let score: i32 = out?;
            proof {
                value::lemma_razored(w1, s1, cfg, o, *ctx, alpha as int, score as int);
            }
            if score <= alpha {
                proof {
                    value::lemma_early(
                        p,
                        cfg,
                        o,
                        roots,
                        verifying,
                        *ctx,
                        alpha as int,
                        after_null,
                        score as int,
                    );
                }
                return Ok(Some(score));
            }
        }
        if !after_null && !self.is_nmp_verif && lead >= beta && self.has_pieces() {
            let out = self.try_null(s, ctx, lead, Ghost(o));
            proof {
                value::lemma_heir_wider(p, cfg, o, ply as int, h, h + 1, memory::memory(*self, *s));
            }
            if let Some(x) = out? {
                proof {
                    value::lemma_early(
                        p,
                        cfg,
                        o,
                        roots,
                        verifying,
                        *ctx,
                        alpha as int,
                        after_null,
                        x as int,
                    );
                }
                return Ok(Some(x));
            }
        }
        if depth >= s.cfg.search_params.probcut_depth_min() && !is_mate(beta) {
            assert(born(we, se, *self, *s, *ctx)) by {
                reveal(born);
            }
            let out = self.try_probcut(s, ctx, depth, Ghost(we), Ghost(se));
            if let Some(x) = out? {
                proof {
                    value::lemma_early(
                        p,
                        cfg,
                        o,
                        roots,
                        verifying,
                        *ctx,
                        alpha as int,
                        after_null,
                        x as int,
                    );
                }
                return Ok(Some(x));
            }
        }
        proof {
            value::lemma_held_out(p, cfg, o, verifying, *ctx, alpha as int, after_null);
        }
        Ok(None)
    }
}

/// A move is worth a threshold up to what its exchange brings, and castling, which exchanges
/// nothing, up to nothing.
pub proof fn law_a_move_is_worth_its_exchange(p: Position, mv: Move, a: int, b: int)
    requires
        a <= b,
    ensures
        worth_it(p, mv, b) ==> worth_it(p, mv, a),
        mv.castles() ==> worth_it(p, mv, 0) && !worth_it(p, mv, 1),
        !mv.castles() ==> worth_it(p, mv, see::exchange(p, mv)) && !worth_it(p, mv, see::exchange(p, mv) + 1),
{
}

} // verus!
