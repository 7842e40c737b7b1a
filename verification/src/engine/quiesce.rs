//! The quiescence search.

use vstd::prelude::*;

use crate::chess::bitboard::Bitboard;
use crate::chess::defs::{self, draw_score, is_mate, mated_in, INF, MATE, MATE_BOUND, MAX_PLY, SCORE_NONE};
use crate::chess::geom;
use crate::chess::legal;
use crate::chess::moves::Move;
use crate::chess::pins::Pins;
use crate::chess::position::Position;
use crate::chess::rules;
use crate::chess::types::{Color, PieceType, Square};
use crate::engine::config::{self, SearchConfig};
use crate::engine::eval::{self, evaluate_psqt, extract_phase, lazy_eval_margin};
use crate::engine::history;
use crate::engine::memory::{self, Origin};
use crate::engine::mobility;
use crate::engine::movepicker::{self, MovePicker};
use crate::engine::negamax;
use crate::engine::prunings;
use crate::engine::search::{self, NodeType, SearchAborted, Searcher, Worker, NODE_CHECK_INTERVAL, WINDOW};
use crate::engine::search_params::SearchParams;
use crate::engine::step;
use crate::engine::tt::{self, can_cutoff, clamp_to_bound, Bound, TtData};
use crate::engine::value;

verus! {

broadcast use {
    crate::engine::history::lemma_grown_same,
    crate::engine::history::lemma_grown_further,
    crate::engine::memory::lemma_furnished_same,
    crate::engine::memory::lemma_furnished_further,
};

impl Worker {
    /// A picker of captures, or of all moves where a check forces one.
    pub(crate) fn tactics(&self, cfg: &SearchConfig, tt_move: Option<Move>, pins: Pins, checkers: Bitboard, in_check: bool) -> (picker:
        MovePicker)
        requires
            self.wf(),
            cfg.wf(),
            step::pinning(self.pos, pins),
            step::checking(self.pos, checkers),
            step::names(self.pos, tt_move),
        ensures
            step::picks(picker, self.pos, pins, checkers),
            picker.plan.full() == in_check,
            picker.plan.hash_move == tt_move,
            forall|ex: Move| #[trigger] step::passed_over(picker, self.pos, ex),
            forall|done: Set<Move>| #[trigger] step::behind(picker, self.pos, done),
    {
        let picker = MovePicker::new_qsearch(tt_move, cfg, pins, in_check);
        proof {
            reveal(step::picks);
            reveal(step::pinning);
            reveal(step::names);
            reveal(step::passed_over);
            reveal(step::behind);
            picker.plan.lemma_fits(*cfg, self.pos);
            picker.lemma_fresh(self.pos, self.history);
        }
        picker
    }

    /// Whether the exchange that a legal move opens loses nothing.
    pub(crate) fn holds(&self, mv: Move, pins: &Pins) -> (r: bool)
        requires
            self.wf(),
            search::may(self.pos, mv),
            step::pinning(self.pos, *pins),
        ensures
            r == prunings::worth_it(self.pos, mv, 0),
    {
        proof {
            reveal(step::pinning);
            reveal(Worker::kept);
            reveal(search::may);
        }
        prunings::clears(&self.pos, mv, 0, pins)
    }
}

/// The piece-square sums alone, as the correction tables shift them.
pub open spec fn glanced(w: Worker, sp: SearchParams) -> int {
    let phase = history::clamped(w.accumulator.phase as int, 0, defs::TOTAL_PHASE as int);
    let sums = eval::seen_from(w.pos.stm, mobility::tapered(w.accumulator.mg as int, w.accumulator.eg as int, phase));
    history::clamped(sums + w.correction_spec(sp), -MATE_BOUND as int, MATE_BOUND as int)
}

/// How far the piece-square sums alone may be off.
pub open spec fn doubt(w: Worker, sp: SearchParams) -> int {
    let phase = history::clamped(w.accumulator.phase as int, 0, defs::TOTAL_PHASE as int);
    eval::lazy_margin(w.pos.board(), phase, sp)
}

/// Standing pat at `pat` settles a score without a capture: above beta, and where no capture
/// can lift it to alpha.
pub open spec fn stood(p: Position, sp: SearchParams, pat: int, alpha: int, beta: int, x: int) -> bool {
    if pat >= beta {
        x == history::quotient(pat + beta, 2)
    } else {
        hopeless(p, sp, pat, legal::greater(pat, alpha)) && x == legal::greater(pat, alpha)
    }
}

/// What standing pat is worth, from the raw evaluation and what the table knows.
pub open spec fn patted(w: Worker, sp: SearchParams, data: TtData, raw: int) -> int {
    let e = history::clamped(raw + w.correction_spec(sp), -MATE_BOUND as int, MATE_BOUND as int);
    if defs::wins(data.score as int) || defs::loses(data.score as int) {
        e
    } else {
        match data.bound {
            Bound::Exact => data.score as int,
            Bound::Lower => legal::greater(e, data.score as int),
            Bound::Upper => legal::lesser(e, data.score as int),
            Bound::Empty => e,
        }
    }
}

/// No capture can lift a score of `pat` to `alpha`.
pub open spec fn hopeless(p: Position, sp: SearchParams, pat: int, alpha: int) -> bool {
    pat + dearest_of(p, sp, p.stm.other()) + sp.delta_margin() < alpha
}

/// A quiescence node that standing pat settles.
pub(crate) proof fn lemma_stood(
    w: Worker,
    s: Searcher,
    node: NodeType,
    alpha: int,
    beta: int,
    ply: int,
    prev: Option<Square>,
    qs_ply: int,
    x: int,
)
    requires
        !negamax::ended(w.pos, s.zobrist_trail@, ply),
        ply < MAX_PLY,
        !step::checked(w.pos),
        ({
            let d = negamax::told(s.tt, w.pos, ply);
            let sp = s.cfg.search_params;
            &&& !(node == NodeType::NonPvNode && tt::settles(d.bound, d.score as int, alpha, beta))
            &&& if d.eval != SCORE_NONE {
                stood(w.pos, sp, patted(w, sp, d, d.eval as int), alpha, beta, x)
            } else if glanced(w, sp) - doubt(w, sp) >= beta {
                x == history::quotient(glanced(w, sp) + beta, 2)
            } else {
                exists|raw: int| #[trigger] w.judged(raw) && stood(w.pos, sp, patted(w, sp, d, raw), alpha, beta, x)
            }
        }),
    ensures
        value::calmed(w, s, node, alpha, beta, ply, prev, qs_ply, x),
{
    let d = negamax::told(s.tt, w.pos, ply);
    let sp = s.cfg.search_params;
    let raw = if d.eval != SCORE_NONE {
        d.eval as int
    } else {
        choose|raw: int| #[trigger] w.judged(raw) && stood(w.pos, sp, patted(w, sp, d, raw), alpha, beta, x)
    };
    if d.eval != SCORE_NONE || glanced(w, sp) - doubt(w, sp) < beta {
        value::lemma_posed(
            w.pos,
            *s.cfg,
            memory::origin(w, s),
            node,
            alpha,
            beta,
            ply,
            prev,
            qs_ply,
            patted(w, sp, d, raw),
            x,
        );
    }
    value::lemma_calmed(w, s, node, alpha, beta, ply, prev, qs_ply, raw, x);
}

/// What standing pat comes to.
pub enum Stand {
    /// The node is settled.
    Done(i32),
    /// The captures are to be searched.
    Open { raw: i32, best: i32, alpha: i32 },
}

/// Side `c` has a man of kind `pt`.
pub open spec fn has_man(p: Position, c: Color, pt: PieceType) -> bool {
    exists|x: int| geom::on_board(x) && #[trigger] p.board()[x] == rules::man(c, pt)
}

/// What the dearest man of side `c` is worth, as captures are ordered, the king aside.
pub open spec fn dearest_of(p: Position, sp: SearchParams, c: Color) -> int {
    if has_man(p, c, PieceType::Queen) {
        config::victim_value(sp, PieceType::Queen) as int
    } else if has_man(p, c, PieceType::Rook) {
        config::victim_value(sp, PieceType::Rook) as int
    } else if has_man(p, c, PieceType::Bishop) {
        config::victim_value(sp, PieceType::Bishop) as int
    } else if has_man(p, c, PieceType::Knight) {
        config::victim_value(sp, PieceType::Knight) as int
    } else if has_man(p, c, PieceType::Pawn) {
        config::victim_value(sp, PieceType::Pawn) as int
    } else {
        0
    }
}

/// Whether side `c` has a man of kind `pt`.
pub(crate) fn owns(pos: &Position, c: Color, pt: PieceType) -> (r: bool)
    requires
        pos.wf(),
        pt != PieceType::Empty,
    ensures
        r == has_man(*pos, c, pt),
{
    let men = pos.pieces(pt, c);
    let r = men.is_not_empty();
    proof {
        if r {
            let x = choose|x: int| #[trigger] men.has(x);
            assert(pos.board()[x] == rules::man(c, pt));
        }
        if has_man(*pos, c, pt) {
            let x = choose|x: int| geom::on_board(x) && #[trigger] pos.board()[x] == rules::man(c, pt);
            assert(men.has(x));
        }
    }
    r
}

/// What the dearest man of side `c` is worth.
pub(crate) fn dearest(pos: &Position, cfg: &SearchConfig, c: Color) -> (v: i32)
    requires
        pos.wf(),
        cfg.wf(),
    ensures
        v == dearest_of(*pos, cfg.search_params, c),
        0 <= v <= 1100,
{
    let pt = if owns(pos, c, PieceType::Queen) {
        PieceType::Queen
    } else if owns(pos, c, PieceType::Rook) {
        PieceType::Rook
    } else if owns(pos, c, PieceType::Bishop) {
        PieceType::Bishop
    } else if owns(pos, c, PieceType::Knight) {
        PieceType::Knight
    } else if owns(pos, c, PieceType::Pawn) {
        PieceType::Pawn
    } else {
        return 0;
    };
    assert(cfg.mvvlva_v[pt.index()] == config::victim_value(cfg.search_params, pt));
    cfg.mvvlva_v[pt.idx()]
}

impl Worker {
    /// The evaluation of a quiescence node that is not in check, and whether it settles the
    /// node: above beta it does, and so far below alpha that no capture could lift it.
    pub(crate) fn stand(&mut self, s: &Searcher, data: &TtData, alpha: i32, beta: i32) -> (r: Stand)
        requires
            old(self).wf(),
            s.wf(),
            negamax::window(alpha as int, beta as int),
            -32768 <= data.eval <= 32767,
        ensures
            final(self).wf(),
            final(self).pos == old(self).pos,
            final(self).accumulator == old(self).accumulator,
            final(self).stack == old(self).stack,
            final(self).history == old(self).history,
            final(self).is_nmp_verif == old(self).is_nmp_verif,
            memory::furnished(final(self).pawn_cache, old(self).pawn_cache, old(self).pos),
            match r {
                Stand::Done(x) => {
                    &&& -WINDOW <= x <= WINDOW
                    &&& x >= alpha
                    &&& {
                        let sp = s.cfg.search_params;
                        if data.eval != SCORE_NONE {
                            stood(
                                old(self).pos,
                                sp,
                                patted(*old(self), sp, *data, data.eval as int),
                                alpha as int,
                                beta as int,
                                x as int,
                            )
                        } else if glanced(*old(self), sp) - doubt(*old(self), sp) >= beta {
                            x == history::quotient(glanced(*old(self), sp) + beta, 2)
                        } else {
                            exists|raw: int| #[trigger]
                                old(self).judged(raw) && stood(
                                    old(self).pos,
                                    sp,
                                    patted(*old(self), sp, *data, raw),
                                    alpha as int,
                                    beta as int,
                                    x as int,
                                )
                        }
                    }
                },
                Stand::Open { raw, best, alpha: a } => {
                    &&& if data.eval != SCORE_NONE {
                        raw == data.eval
                    } else {
                        old(self).judged(raw as int)
                    }
                    &&& best == patted(*old(self), s.cfg.search_params, *data, raw as int)
                    &&& data.eval == SCORE_NONE ==> glanced(*old(self), s.cfg.search_params) - doubt(
                        *old(self),
                        s.cfg.search_params,
                    ) < beta
                    &&& a == legal::greater(best as int, alpha as int)
                    &&& !hopeless(old(self).pos, s.cfg.search_params, best as int, a as int)
                    &&& -WINDOW <= best < beta
                    &&& alpha <= a < beta
                    &&& a >= best
                    &&& -7_000_000 <= raw <= 7_000_000
                },
            },
    {
        proof {
            reveal(Worker::kept);
        }
        let raw: i32 = if data.eval != SCORE_NONE {
            data.eval
        } else {
            // The piece-square sums alone may be far enough above beta.
            proof {
                eval::lemma_in_range(self.accumulator, self.pos.board());
            }
            let phase: i32 = extract_phase(&self.accumulator);
            proof {
                mobility::lemma_tapered(self.accumulator.mg as int, self.accumulator.eg as int, phase as int, 5_000_000);
                eval::lemma_lazy_margin(self.pos, phase as int, s.cfg.search_params);
            }
            let psqt: i32 = evaluate_psqt(&self.pos, &self.accumulator, phase);
            let lazy: i32 = self.corrected_eval(psqt, &s.cfg.search_params);
            let floor: i32 = lazy - lazy_eval_margin(&self.pos, phase, &s.cfg.search_params);
            if floor >= beta {
                return Stand::Done((lazy + beta) / 2);
            }
            self.evaluate()
        };
        let e: i32 = self.corrected_eval(raw, &s.cfg.search_params);
        let pat: i32 = if is_mate(data.score) {
            e
        } else {
            clamp_to_bound(data.bound, data.score, e)
        };
        if pat >= beta {
            return Stand::Done((pat + beta) / 2);
        }
        let a: i32 = if pat > alpha {
            pat
        } else {
            alpha
        };
        let gain: i32 = dearest(&self.pos, s.cfg, self.pos.stm.opposite());
        if pat + gain + s.cfg.search_params.delta_margin() < a {
            return Stand::Done(a);
        }
        Stand::Open { raw, best: pat, alpha: a }
    }

    /// Quiescence: a position is only judged once its captures are resolved, so that the
    /// search does not stop right before a blunder shows. In check every reply is searched.
    pub fn qsearch(
        &mut self,
        s: &mut Searcher,
        node: NodeType,
        alpha: i32,
        beta: i32,
        ply: usize,
        prev_to: Option<Square>,
        qs_ply: i32,
    ) -> (r: Result<i32, SearchAborted>)
        requires
            old(self).wf(),
            old(s).wf(),
            ply <= MAX_PLY,
            negamax::window(alpha as int, beta as int),
            0 <= qs_ply <= ply,
        ensures
            negamax::returned(*old(self), *final(self), *old(s), *final(s), ply as int),
            negamax::answered(r, *old(s), *final(s), ply as int),
            negamax::ended(old(self).pos, old(s).zobrist_trail@, ply as int) ==> {
                &&& r matches Ok(x) ==> x == negamax::drawish(old(s).nodes)
                &&& old(s).nodes % NODE_CHECK_INTERVAL != 0 ==> r is Ok
            },
            r matches Ok(x) ==> value::calmed(
                *old(self),
                *old(s),
                node,
                alpha as int,
                beta as int,
                ply as int,
                prev_to,
                qs_ply as int,
                x as int,
            ),
            r matches Ok(x) ==> lodged(
                *old(self),
                *old(s),
                node,
                alpha as int,
                beta as int,
                ply as int,
                x as int,
                *final(s),
            ),
            value::heir(
                old(self).pos,
                *old(s).cfg,
                memory::origin(*old(self), *old(s)),
                ply as int,
                1,
                memory::memory(*final(self), *final(s)),
            ),
        decreases MAX_PLY + 1 - ply, 0int, 1int,
    {
        let ghost w0 = *self;
        let ghost s0 = *s;
        let ghost o = memory::origin(w0, s0);
        let ghost p = w0.pos;
        let ghost cfg = *s0.cfg;
        proof {
            value::lemma_heir_starts(p, cfg, o, ply as int, 0);
            value::lemma_heir_starts(p, cfg, o, ply as int, 1);
        }
        self.clear_line(ply);
        if s.nodes % NODE_CHECK_INTERVAL == 0 && s.check_signals() {
            assert(negamax::due(s.nodes as int));
            return Err(SearchAborted);
        }
        s.enter_node();
        if self.is_draw(ply, &s.zobrist_trail) {
            let x: i32 = draw_score(s.nodes);
            assert(value::calmed(w0, s0, node, alpha as int, beta as int, ply as int, prev_to, qs_ply as int, x as int)) by {
                reveal(value::calmed);
            }
            assert(lodged(w0, s0, node, alpha as int, beta as int, ply as int, x as int, *s)) by {
                reveal(lodged);
            }
            return Ok(x);
        }
        s.note_ply(ply);
        if ply >= MAX_PLY {
            let ghost w1 = *self;
            let x: i32 = self.gauge();
            proof {
                value::lemma_heir_learns(p, cfg, o, ply as int, 1, o.memory, memory::memory(*self, *s));
            }
            assert(value::calmed(w0, s0, node, alpha as int, beta as int, ply as int, prev_to, qs_ply as int, x as int)) by {
                negamax::lemma_gauged_alike(w1, w0, ply as int, x as int);
                reveal(value::calmed);
            }
            assert(lodged(w0, s0, node, alpha as int, beta as int, ply as int, x as int, *s)) by {
                reveal(lodged);
            }
            return Ok(x);
        }
        let (data, tt_move) = self.consult(s, ply);
        if !node.is_pv() && can_cutoff(data.bound, data.score, alpha, beta) {
            assert(value::calmed(w0, s0, node, alpha as int, beta as int, ply as int, prev_to, qs_ply as int, data.score as int)) by {
                reveal(value::calmed);
            }
            assert(lodged(w0, s0, node, alpha as int, beta as int, ply as int, data.score as int, *s)) by {
                reveal(lodged);
            }
            return Ok(data.score);
        }
        let (checkers, in_check) = self.checks();
        let ghost w1 = *self;
        assert(memory::origin(w1, *s) == o);
        let (raw, best, lo): (i32, i32, i32) = if in_check {
            (SCORE_NONE, -INF, alpha)
        } else {
            match self.stand(s, &data, alpha, beta) {
                Stand::Done(x) => {
                    proof {
                        value::lemma_heir_learns(p, cfg, o, ply as int, 1, o.memory, memory::memory(*self, *s));
                        lemma_stood(w1, *s, node, alpha as int, beta as int, ply as int, prev_to, qs_ply as int, x as int);
                        value::lemma_calmed_alike(
                            w1,
                            w0,
                            *s,
                            s0,
                            node,
                            alpha as int,
                            beta as int,
                            ply as int,
                            prev_to,
                            qs_ply as int,
                            x as int,
                        );
                    }
                    assert(lodged(w0, s0, node, alpha as int, beta as int, ply as int, x as int, *s)) by {
                        lemma_rest_alike(w1, w0, *s, s0, node, alpha as int, beta as int, ply as int, x as int);
                        reveal(lodged);
                    }
                    return Ok(x);
                },
                Stand::Open { raw, best, alpha } => (raw, best, alpha),
            }
        };
        let q = Quiet { node, ply, alpha_orig: alpha, beta, prev_to, qs_ply, checkers, in_check, raw, tt_pv: data.pv, tt_move };
        let ghost s1 = *s;
        proof {
            value::lemma_heir_learns(p, cfg, o, ply as int, 0, o.memory, memory::memory(*self, *s));
            assert forall|x: int, mv: Move| #[trigger]
                value::answers(
                    p,
                    cfg,
                    o,
                    node,
                    lo as int,
                    beta as int,
                    ply as int,
                    prev_to,
                    qs_ply as int,
                    floor_of(q, best as int),
                    x,
                    mv,
                ) implies value::composed(
                w1,
                s1,
                node,
                alpha as int,
                beta as int,
                ply as int,
                prev_to,
                qs_ply as int,
                raw as int,
                x,
                mv,
            ) by {
                reveal(value::composed);
                reveal(value::answers);
            }
        }
        let r = self.resolve(s, &q, best, lo, Ghost(w1), Ghost(s1));
        proof {
            if let Ok(x) = r {
                let sp = s1.cfg.search_params;
                if !in_check {
                    value::lemma_posed(
                        w1.pos,
                        *s1.cfg,
                        memory::origin(w1, s1),
                        node,
                        alpha as int,
                        beta as int,
                        ply as int,
                        prev_to,
                        qs_ply as int,
                        patted(w1, sp, data, raw as int),
                        x as int,
                    );
                }
                value::lemma_calmed(
                    w1,
                    s1,
                    node,
                    alpha as int,
                    beta as int,
                    ply as int,
                    prev_to,
                    qs_ply as int,
                    raw as int,
                    x as int,
                );
                value::lemma_calmed_alike(
                    w1,
                    w0,
                    s1,
                    s0,
                    node,
                    alpha as int,
                    beta as int,
                    ply as int,
                    prev_to,
                    qs_ply as int,
                    x as int,
                );
                assert(lodged(w0, s0, node, alpha as int, beta as int, ply as int, x as int, *s)) by {
                    reveal(lodged);
                    assert(of_node(q, node, alpha as int, beta as int, ply as int));
                }
            }
        }
        r
    }

    /// The move loop of a quiescence node, which was entered with `we` and `se`.
    pub(crate) fn resolve(
        &mut self,
        s: &mut Searcher,
        q: &Quiet,
        best: i32,
        lo: i32,
        Ghost(we): Ghost<Worker>,
        Ghost(se): Ghost<Searcher>,
    ) -> (r: Result<i32, SearchAborted>)
        requires
            old(self).wf(),
            old(self).lined(q.ply as int),
            old(s).wf(),
            q.ply < MAX_PLY,
            negamax::window(lo as int, q.beta as int),
            0 <= q.qs_ply <= q.ply,
            q.in_check ==> best == -INF,
            !q.in_check ==> -WINDOW <= best <= lo,
            step::checking(old(self).pos, q.checkers),
            step::names(old(self).pos, q.tt_move),
            we.wf(),
            se.wf(),
            we.pos == old(self).pos,
            *se.cfg == *old(s).cfg,
            se.zobrist_trail@ == old(s).zobrist_trail@,
            q.tt_pv == negamax::told(se.tt, we.pos, q.ply as int).pv,
            value::heir(
                we.pos,
                *se.cfg,
                memory::origin(we, se),
                q.ply as int,
                0,
                memory::memory(*old(self), *old(s)),
            ),
            forall|x: int, mv: Move| #[trigger]
                value::answers(
                    we.pos,
                    *se.cfg,
                    memory::origin(we, se),
                    q.node,
                    lo as int,
                    q.beta as int,
                    q.ply as int,
                    q.prev_to,
                    q.qs_ply as int,
                    floor_of(*q, best as int),
                    x,
                    mv,
                ) ==> value::composed(
                    we,
                    se,
                    q.node,
                    q.alpha_orig as int,
                    q.beta as int,
                    q.ply as int,
                    q.prev_to,
                    q.qs_ply as int,
                    q.raw as int,
                    x,
                    mv,
                ),
        ensures
            value::heir(
                we.pos,
                *se.cfg,
                memory::origin(we, se),
                q.ply as int,
                1,
                memory::memory(*final(self), *final(s)),
            ),
            negamax::returned(*old(self), *final(self), *old(s), *final(s), q.ply as int),
            negamax::answered(r, *old(s), *final(s), q.ply as int),
            q.in_check && step::stuck(old(self).pos, Move(0)) ==> r == Ok::<i32, SearchAborted>((q.ply - MATE) as i32),
            !(q.in_check && step::stuck(old(self).pos, Move(0))) ==> (r matches Ok(x) ==> value::replied(
                old(self).pos,
                *old(s).cfg,
                memory::origin(we, se),
                q.node,
                lo as int,
                q.beta as int,
                q.ply as int,
                q.prev_to,
                q.qs_ply as int,
                floor_of(*q, best as int),
                x as int,
            )),
            !(q.in_check && step::stuck(old(self).pos, Move(0))) ==> (r matches Ok(x) ==> shelved(
                old(self).pos,
                *q,
                x as int,
                *final(s),
            )),
        decreases MAX_PLY + 1 - q.ply, 0int, 0int,
    {
        let ply: usize = q.ply;
        let ghost w0 = *self;
        let ghost s0 = *s;
        let ghost p = self.pos;
        let pins = self.pins();
        let mut picker = self.tactics(s.cfg, q.tt_move, pins, q.checkers, q.in_check);
        // Deep down only the exchange on one square goes on.
        let recapture_only = !q.in_check && q.qs_ply >= s.cfg.search_params.qs_recapture_ply();
        let mut alpha: i32 = lo;
        let mut best_eval: i32 = best;
        let mut best_move = Move::null();
        let mut moved = false;
        let mut done = false;
        let ghost cfg = *s.cfg;
        let ghost o = memory::origin(we, se);
        let ghost floor = floor_of(*q, best as int);
        let ghost mut log: Seq<(Move, int)> = Seq::empty();
        let ghost mut seen: Set<Move> = Set::empty();
        proof {
            reveal(all_resolved);
            reveal(swept);
        }
        while !done
            invariant
                self.back(w0, ply as int),
                self.lined(ply as int),
                s.wf(),
                s.calm(s0),
                w0 == *old(self),
                s0 == *old(s),
                w0.wf(),
                p == w0.pos,
                ply == q.ply,
                ply < MAX_PLY,
                0 <= q.qs_ply <= ply,
                step::pinning(p, pins),
                step::picks(picker, p, pins, q.checkers),
                negamax::window(lo as int, q.beta as int),
                lo <= alpha,
                !done ==> alpha < q.beta,
                !q.in_check || moved ==> -search::cap(ply as int) <= best_eval <= search::cap(ply as int),
                q.in_check && !moved ==> best_eval == -INF,
                best_move.0 != 0 ==> search::may(p, best_move),
                moved ==> !step::stuck(p, Move(0)),
                q.in_check && !moved && !done ==> step::passed_over(picker, p, Move(0)),
                q.in_check && !moved && done ==> step::stuck(p, Move(0)),
                cfg == *s0.cfg,
                o == memory::origin(we, se),
                o.trail == s0.zobrist_trail@,
                we.wf(),
                se.wf(),
                we.pos == p,
                *se.cfg == cfg,
                value::heir(p, cfg, o, ply as int, 0, memory::memory(*self, *s)),
                q.tt_pv == negamax::told(se.tt, we.pos, ply as int).pv,
                floor == floor_of(*q, best as int),
                recapture_only == (!q.in_check && q.qs_ply >= cfg.search_params.qs_recapture_ply()),
                picker.plan.full() == q.in_check,
                moved == (log.len() > 0),
                !q.in_check || moved ==> value::tops(floor, log, best_eval as int, best_move),
                best_eval <= alpha || done,
                !done ==> alpha == value::peak(lo as int, log),
                value::halts(log, q.beta as int),
                all_resolved(p, cfg, o, *q, lo as int, log),
                !done ==> step::behind(picker, p, seen),
                done && best_eval < q.beta ==> step::exhausts(picker.plan, p, seen),
                swept(p, cfg, *q, log, seen),
            decreases if done {
                0int
            } else {
                1
            }, picker.stage.ahead(), picker.pending(),
        {
            let ghost before = picker;
            let mv = match self.next_legal(&mut picker, &pins, q.checkers) {
                Some(m) => m,
                None => {
                    assert(step::behind(before, p, seen));
                    done = true;
                    continue;
                },
            };
            let ghost past = seen;
            proof {
                assert(step::behind(before, p, seen));
                seen = seen.insert(mv);
            }
            assert(!step::stuck(p, Move(0))) by {
                reveal(step::stuck);
                reveal(search::may);
                lemma_null_is_no_move(p);
            }
            if recapture_only {
                if let Some(prev) = q.prev_to {
                    if mv.to() != prev {
                        assert(swept(p, cfg, *q, log, seen)) by {
                            reveal(swept);
                        }
                        continue;
                    }
                }
            }
            // Evasions are forced, whatever they lose.
            if !q.in_check && !self.holds(mv, &pins) {
                assert(swept(p, cfg, *q, log, seen)) by {
                    reveal(swept);
                }
                continue;
            }
            let ghost wb = *self;
            let ghost sb = *s;
            let undo = self.advance(s, mv);
            let ghost after = self.pos;
            let ghost w1 = *self;
            let ghost s1 = *s;
            let to = mv.to();
            assert(memory::memory(w1, s1) == memory::memory(wb, sb));
            let out = self.qsearch(s, q.node, -q.beta, -alpha, ply + 1, Some(to), q.qs_ply + 1);
            let ghost m1 = memory::memory(*self, *s);
            self.retreat(s, undo, Ghost(w0));
            assert(s.zobrist_trail@ =~= s0.zobrist_trail@);
            proof {
                assert(memory::stepped(p, after));
                memory::lemma_visits_next(p, o.trail, after);
                assert(memory::memory(*self, *s) == m1);
                value::lemma_heir_goes_on(
                    p,
                    cfg,
                    o,
                    ply as int,
                    0,
                    memory::memory(w1, s1),
                    after,
                    s1.zobrist_trail@,
                    ply + 1,
                    1,
                    m1,
                );
                value::lemma_heir_wider(p, cfg, o, ply as int, 0, 1, m1);
                memory::lemma_furnished_above(self.pawn_cache, w1.pawn_cache, p, after);
            }
            let x: i32 = out?;
            let score: i32 = -x;
            proof {
                let e = (mv, score as int);
                value::lemma_resolved(
                    p,
                    mv,
                    w1,
                    s1,
                    cfg,
                    o,
                    q.node,
                    alpha as int,
                    q.beta as int,
                    ply as int,
                    to,
                    q.qs_ply as int,
                    x as int,
                );
                lemma_resolved_push(p, cfg, o, *q, lo as int, log, e);
                lemma_swept_push(p, cfg, *q, log, past, seen, e);
                value::lemma_tops_push(floor, log, best_eval as int, best_move, e);
                value::lemma_peak_push(lo as int, log, e);
                log = log.push(e);
            }
            moved = true;
            if score > best_eval {
                best_eval = score;
                best_move = mv;
                if score > alpha {
                    let tail = self.line_at(ply + 1);
                    self.raise_line(ply, mv, &tail, Ghost(after));
                    if score >= q.beta {
                        done = true;
                    } else {
                        alpha = score;
                    }
                }
            }
        }
        proof {
            value::lemma_heir_wider(p, cfg, o, ply as int, 0, 1, memory::memory(*self, *s));
        }
        if q.in_check && !moved {
            return Ok(mated_in(ply));
        }
        proof {
            lemma_swept_all(p, cfg, o, *q, lo as int, floor, log, seen, picker.plan, best_eval as int, best_move);
        }
        let ghost s2 = *s;
        self.settle(s, q, best_eval, best_move);
        assert(shelved(p, *q, best_eval as int, *s)) by {
            reveal(shelved);
            assert(laid_by(s2, *s, p, *q, best_move, best_eval as int));
        }
        proof {
            let f = value::Find {
                way: value::Way::Calm,
                node: q.node,
                depth: 0,
                alpha: q.alpha_orig as int,
                beta: q.beta as int,
                ply: ply as int,
                after_null: false,
                prev: q.prev_to,
                qs_ply: q.qs_ply as int,
                ctx: arbitrary(),
                raw: q.raw as int,
                x: best_eval as int,
                mv: best_move,
            };
            assert(value::reported(cfg, we, se, f)) by {
                reveal(value::reported);
            }
            value::lemma_heir_stores(
                we,
                se,
                o,
                ply as int,
                1,
                memory::memory(*self, s2),
                memory::memory(*self, *s),
                f,
            );
        }
        Ok(best_eval)
    }

    /// Stores what a quiescence node has found.
    pub(crate) fn settle(&self, s: &mut Searcher, q: &Quiet, best_eval: i32, best_move: Move)
        requires
            self.wf(),
            old(s).wf(),
            q.ply < MAX_PLY,
            -search::cap(q.ply as int) <= best_eval <= search::cap(q.ply as int),
            best_move.0 != 0 ==> search::may(self.pos, best_move),
        ensures
            final(s).wf(),
            final(s).calm(*old(s)),
            tt::stored_qs(
                old(s).tt,
                final(s).tt,
                self.pos.hash,
                q.ply as int,
                best_eval as int,
                best_move,
                negamax::bound_of(best_eval as int, q.alpha_orig as int, q.beta as int),
                q.node.is_pv() || q.tt_pv,
                q.raw as int,
            ),
    {
        proof {
            reveal(Searcher::kept);
            reveal(search::may);
        }
        let bound = negamax::bound_for(best_eval, q.alpha_orig, q.beta);
        let pv = q.node.is_pv() || q.tt_pv;
        let ghost t0 = s.tt;
        s.tt.store_qs(self.pos.hash, q.ply, best_eval, best_move, bound, pv, q.raw);
        proof {
            tt::lemma_store_within(
                t0,
                s.tt,
                self.pos.hash,
                q.ply as int,
                0,
                best_eval as int,
                best_move,
                bound,
                pv,
                q.raw as int,
                search::REACH as int,
            );
        }
    }
}

/// What a quiescence node knows of itself.
#[derive(Clone, Copy, Debug)]
pub struct Quiet {
    pub node: NodeType,
    pub ply: usize,
    pub alpha_orig: i32,
    pub beta: i32,
    /// Where the last capture was.
    pub prev_to: Option<Square>,
    /// How deep the quiescence search is.
    pub qs_ply: i32,
    pub checkers: Bitboard,
    pub in_check: bool,
    pub raw: i32,
    pub tt_pv: bool,
    pub tt_move: Option<Move>,
}

/// The result of a quiescence node has been stored.
pub open spec fn laid_by(s0: Searcher, s1: Searcher, p: Position, q: Quiet, mv: Move, x: int) -> bool {
    &&& mv.0 != 0 ==> search::may(p, mv)
    &&& tt::after_store_qs(
        s0.tt.cluster_of(p.hash),
        s1.tt.cluster_of(p.hash),
        tt::verification(p.hash),
        s0.tt.age(),
        q.ply as int,
        x,
        mv,
        negamax::bound_of(x, q.alpha_orig as int, q.beta as int),
        q.node.is_pv() || q.tt_pv,
        q.raw as int,
    )
}

/// The table holds what a quiescence node has found.
#[verifier::opaque]
pub open spec fn shelved(p: Position, q: Quiet, x: int, s: Searcher) -> bool {
    exists|s0: Searcher, mv: Move| #[trigger] laid_by(s0, s, p, q, mv, x)
}

/// A quiescence node is settled without a move being searched.
pub open spec fn at_rest(w: Worker, s: Searcher, node: NodeType, alpha: int, beta: int, ply: int, x: int) -> bool {
    let sp = s.cfg.search_params;
    let d = negamax::told(s.tt, w.pos, ply);
    ||| negamax::ended(w.pos, s.zobrist_trail@, ply)
    ||| ply >= MAX_PLY
    ||| node == NodeType::NonPvNode && tt::settles(d.bound, d.score as int, alpha, beta)
    ||| step::checked(w.pos) && step::stuck(w.pos, Move(0))
    ||| !step::checked(w.pos) && d.eval != SCORE_NONE && stood(w.pos, sp, patted(w, sp, d, d.eval as int), alpha, beta, x)
    ||| !step::checked(w.pos) && d.eval == SCORE_NONE && glanced(w, sp) - doubt(w, sp) >= beta
    ||| !step::checked(w.pos) && d.eval == SCORE_NONE && exists|raw: int| #[trigger]
        w.judged(raw) && stood(w.pos, sp, patted(w, sp, d, raw), alpha, beta, x)
}

/// The node, its window and its ply are those given.
pub open spec fn of_node(q: Quiet, node: NodeType, alpha: int, beta: int, ply: int) -> bool {
    q.node == node && q.alpha_orig == alpha && q.beta == beta && q.ply == ply
}

/// What a quiescence node leaves behind: unless it is at rest, its result is in the table.
#[verifier::opaque]
pub open spec fn lodged(
    w: Worker,
    s: Searcher,
    node: NodeType,
    alpha: int,
    beta: int,
    ply: int,
    x: int,
    s1: Searcher,
) -> bool {
    at_rest(w, s, node, alpha, beta, ply, x) || exists|q: Quiet| #[trigger]
        of_node(q, node, alpha, beta, ply) && shelved(w.pos, q, x, s1)
}

proof fn lemma_rest_alike(
    a: Worker,
    b: Worker,
    s: Searcher,
    t: Searcher,
    node: NodeType,
    alpha: int,
    beta: int,
    ply: int,
    x: int,
)
    requires
        negamax::alike(a, b, ply),
        negamax::akin(s, t),
        at_rest(a, s, node, alpha, beta, ply, x),
    ensures
        at_rest(b, t, node, alpha, beta, ply, x),
{
    let sp = s.cfg.search_params;
    let d = negamax::told(s.tt, a.pos, ply);
    assert forall|raw: int| #[trigger] a.judged(raw) implies b.judged(raw) by {
        reveal(Worker::judged);
    }
    assert forall|raw: int| #[trigger] patted(a, sp, d, raw) == patted(b, sp, d, raw) by {}
    assert(glanced(a, sp) == glanced(b, sp) && doubt(a, sp) == doubt(b, sp));
}

/// What a quiescence node scores at least: in check nothing is promised.
pub open spec fn floor_of(q: Quiet, best: int) -> Option<int> {
    if q.in_check {
        None
    } else {
        Some(best)
    }
}

/// The moves of a quiescence node searched so far, each with the alpha of its time.
#[verifier::opaque]
spec fn all_resolved(p: Position, cfg: SearchConfig, o: Origin, q: Quiet, lo: int, log: Seq<(Move, int)>) -> bool {
    forall|i: int|
        0 <= i < log.len() ==> value::resolved(
            p,
            cfg,
            o,
            q.node,
            value::peak(lo, log.take(i)),
            q.beta as int,
            q.ply as int,
            q.qs_ply as int,
            (#[trigger] log[i]).0,
            log[i].1,
        ) && (q.in_check || !value::left_out(p, cfg.search_params, q.prev_to, q.qs_ply as int, log[i].0))
}

/// The moves seen so far were searched or left out.
#[verifier::opaque]
spec fn swept(p: Position, cfg: SearchConfig, q: Quiet, log: Seq<(Move, int)>, seen: Set<Move>) -> bool {
    forall|m: Move| #[trigger]
        seen.contains(m) ==> value::logged(log, m) || (!q.in_check && value::left_out(
            p,
            cfg.search_params,
            q.prev_to,
            q.qs_ply as int,
            m,
        ))
}

proof fn lemma_resolved_push(
    p: Position,
    cfg: SearchConfig,
    o: Origin,
    q: Quiet,
    lo: int,
    log: Seq<(Move, int)>,
    e: (Move, int),
)
    requires
        all_resolved(p, cfg, o, q, lo, log),
        value::resolved(
            p,
            cfg,
            o,
            q.node,
            value::peak(lo, log),
            q.beta as int,
            q.ply as int,
            q.qs_ply as int,
            e.0,
            e.1,
        ),
        q.in_check || !value::left_out(p, cfg.search_params, q.prev_to, q.qs_ply as int, e.0),
    ensures
        all_resolved(p, cfg, o, q, lo, log.push(e)),
{
    reveal(all_resolved);
    value::lemma_peak_push(lo, log, e);
    let l = log.push(e);
    assert forall|i: int| 0 <= i < l.len() implies value::resolved(
        p,
        cfg,
        o,
        q.node,
        value::peak(lo, l.take(i)),
        q.beta as int,
        q.ply as int,
        q.qs_ply as int,
        (#[trigger] l[i]).0,
        l[i].1,
    ) && (q.in_check || !value::left_out(p, cfg.search_params, q.prev_to, q.qs_ply as int, l[i].0)) by {
        assert(l.take(i) == log.take(i));
        if i < log.len() {
            assert(l[i] == log[i]);
        } else {
            assert(log.take(i) =~= log);
        }
    }
}

proof fn lemma_swept_push(
    p: Position,
    cfg: SearchConfig,
    q: Quiet,
    log: Seq<(Move, int)>,
    before: Set<Move>,
    seen: Set<Move>,
    e: (Move, int),
)
    requires
        swept(p, cfg, q, log, before),
        forall|m: Move| #[trigger] seen.contains(m) ==> m == e.0 || before.contains(m),
    ensures
        swept(p, cfg, q, log.push(e), seen),
{
    reveal(swept);
    value::lemma_logged_push(log, e);
}

proof fn lemma_swept_all(
    p: Position,
    cfg: SearchConfig,
    o: Origin,
    q: Quiet,
    lo: int,
    floor: Option<int>,
    log: Seq<(Move, int)>,
    seen: Set<Move>,
    plan: movepicker::Plan,
    x: int,
    mv: Move,
)
    requires
        floor is None == q.in_check,
        value::tops(floor, log, x, mv),
        all_resolved(p, cfg, o, q, lo, log),
        value::halts(log, q.beta as int),
        plan.full() == q.in_check,
        x < q.beta ==> step::exhausts(plan, p, seen),
        swept(p, cfg, q, log, seen),
    ensures
        value::replied(
            p,
            cfg,
            o,
            q.node,
            lo,
            q.beta as int,
            q.ply as int,
            q.prev_to,
            q.qs_ply as int,
            floor,
            x,
        ),
        value::answers(
            p,
            cfg,
            o,
            q.node,
            lo,
            q.beta as int,
            q.ply as int,
            q.prev_to,
            q.qs_ply as int,
            floor,
            x,
            mv,
        ),
{
    reveal(all_resolved);
    reveal(swept);
    if x < q.beta {
        reveal(step::exhausts);
        assert forall|m: Move| #[trigger]
            search::may(p, m) && (floor is None || m.captures() || m.flag() == Move::PROM_Q) implies value::logged(log, m) || (
        floor is Some && value::left_out(p, cfg.search_params, q.prev_to, q.qs_ply as int, m)) by {
            reveal(search::may);
            assert(plan.offered(p, m));
            assert(seen.contains(m));
        }
    }
    value::lemma_replied(
        p,
        cfg,
        o,
        q.node,
        lo,
        q.beta as int,
        q.ply as int,
        q.prev_to,
        q.qs_ply as int,
        floor,
        log,
        x,
        mv,
    );
}

/// The null move is no move on any board.
pub(crate) proof fn lemma_null_is_no_move(p: Position)
    ensures
        !legal::legal(p, Move(0)),
{
    reveal(Move::src);
}

/// The dearest man of a side is one that it has, and none that it has is dearer; a bare king has
/// none.
pub proof fn law_the_dearest_man_is_on_the_board(p: Position, sp: SearchParams, c: Color, s: int)
    requires
        sp.wf(),
        0 <= s < 64,
        p.board()[s] is Some,
        p.board()[s]->0.color == c,
        p.board()[s]->0.kind != PieceType::King,
        p.board()[s]->0.kind != PieceType::Empty,
    ensures
        p.board()[s]->0.kind == PieceType::Queen ==> dearest_of(p, sp, c) == sp.mvvlva_v_queen(),
        p.board()[s]->0.kind == PieceType::Rook ==> dearest_of(p, sp, c) == sp.mvvlva_v_queen() || dearest_of(p, sp, c)
            == sp.mvvlva_v_rook(),
        exists|x: int| 0 <= x < 64 && (#[trigger] p.board()[x]) is Some && p.board()[x]->0.color == c && dearest_of(p, sp, c)
            == config::victim_value(sp, p.board()[x]->0.kind),
        dearest_of(p, sp, c) >= sp.mvvlva_v_pawn(),
{
    let k = p.board()[s]->0.kind;
    assert(p.board()[s] == rules::man(c, k));
    assert(has_man(p, c, k));
    let best = if has_man(p, c, PieceType::Queen) {
        PieceType::Queen
    } else if has_man(p, c, PieceType::Rook) {
        PieceType::Rook
    } else if has_man(p, c, PieceType::Bishop) {
        PieceType::Bishop
    } else if has_man(p, c, PieceType::Knight) {
        PieceType::Knight
    } else {
        PieceType::Pawn
    };
    assert(has_man(p, c, best));
    let x = choose|x: int| geom::on_board(x) && #[trigger] p.board()[x] == rules::man(c, best);
    assert(p.board()[x]->0.kind == best);
}

/// Where even the dearest enemy man would not lift a score to alpha no capture is tried; a better
/// score or a lower alpha is never more hopeless.
pub proof fn law_hope_goes_by_the_dearest_man(p: Position, sp: SearchParams, pat: int, better: int, alpha: int)
    requires
        pat <= better,
    ensures
        hopeless(p, sp, better, alpha) ==> hopeless(p, sp, pat, alpha),
        hopeless(p, sp, pat, alpha) <==> alpha - pat > dearest_of(p, sp, p.stm.other()) + sp.delta_margin(),
{
}

/// Standing pat above beta is worth halfway between the two.
pub proof fn law_standing_pat_above_beta_is_met_halfway(p: Position, sp: SearchParams, pat: int, alpha: int, beta: int, x: int)
    requires
        stood(p, sp, pat, alpha, beta, x),
    ensures
        pat >= beta ==> beta <= x <= pat && -1 <= 2 * x - (pat + beta) <= 1,
        pat < beta ==> x >= pat && x >= alpha && (x == pat || x == alpha),
{
}

/// Standing pat is worth the corrected evaluation, moved into the range that the table's score
/// proves: up to a lower bound, down to an upper one, and onto an exact one; mate scores prove
/// nothing here.
pub proof fn law_the_table_corrects_standing_pat(w: Worker, sp: SearchParams, d: TtData, raw: int)
    ensures
        ({
            let silent = TtData { bound: Bound::Empty, ..d };
            let e = patted(w, sp, silent, raw);
            let mates = defs::wins(d.score as int) || defs::loses(d.score as int);
            &&& -MATE_BOUND <= e <= MATE_BOUND
            &&& -MATE_BOUND <= raw + w.correction_spec(sp) <= MATE_BOUND ==> e == raw + w.correction_spec(sp)
            &&& mates || d.bound == Bound::Empty ==> patted(w, sp, d, raw) == e
            &&& !mates && d.bound == Bound::Exact ==> patted(w, sp, d, raw) == d.score
            &&& !mates && d.bound == Bound::Lower ==> patted(w, sp, d, raw) >= e && patted(w, sp, d, raw) >= d.score && (patted(
                w,
                sp,
                d,
                raw,
            ) == e || patted(w, sp, d, raw) == d.score)
            &&& !mates && d.bound == Bound::Upper ==> patted(w, sp, d, raw) <= e && patted(w, sp, d, raw) <= d.score && (patted(
                w,
                sp,
                d,
                raw,
            ) == e || patted(w, sp, d, raw) == d.score)
        }),
{
}

} // verus!
