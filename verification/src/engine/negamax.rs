//! The nodes of the search.
//!
//! Every function here leaves the board, the accumulator and the trail of keys as it found
//! them, whether it returns a score or is cut short, and leaves a line at its ply that can
//! be played from the board.

use vstd::prelude::*;

use crate::chess::defs::{self, draw_score, is_mate, mate_in, mated_in, MATE, MATE_BOUND, MAX_PLY, SCORE_NONE};
use crate::chess::legal;
use crate::chess::moves::Move;
use crate::chess::position::Position;
use crate::engine::history;
use crate::engine::loops::{self, LoopEnd};
use crate::engine::memory::{self, Memory};
use crate::engine::prunings;
use crate::engine::search::{
    self, MoveResult, NodeCtx, NodeType, RootMove, SearchAborted, Searcher, Stack, Worker, NODE_CHECK_INTERVAL, WINDOW,
};
use crate::engine::step;
use crate::engine::tt::{self, can_cutoff, Bound, TranspositionTable, TtData, TtMove};
use crate::engine::value;

verus! {

broadcast use {
    crate::engine::history::lemma_grown_same,
    crate::engine::history::lemma_grown_further,
    crate::engine::memory::lemma_furnished_same,
    crate::engine::memory::lemma_furnished_further,
};

/// Everything is as it was, and the line at `ply` can be played.
pub open spec fn returned(w0: Worker, w1: Worker, s0: Searcher, s1: Searcher, ply: int) -> bool {
    &&& w1.back(w0, ply)
    &&& w1.lined(ply)
    &&& s1.wf()
    &&& s1.calm(s0)
}

/// A score that fits a node at `ply`, or an abort that is allowed.
pub open spec fn answered(r: Result<i32, SearchAborted>, s0: Searcher, s1: Searcher, ply: int) -> bool {
    match r {
        Ok(x) => -search::cap(ply) <= x <= search::cap(ply),
        Err(_) => aborted(s0, s1),
    }
}

/// The signals are looked at once `n` nodes were entered.
pub open spec fn due(n: int) -> bool {
    n % (NODE_CHECK_INTERVAL as int) == 0
}

/// A search that leads from `s0` to `s1` may be cut short: past the first iteration, where the
/// signals were looked at on the way.
pub open spec fn aborted(s0: Searcher, s1: Searcher) -> bool {
    s0.iter_depth > 1 && exists|n: int| #[trigger] due(n) && s0.nodes <= n <= s1.nodes
}

/// A window that a node can be searched with.
pub open spec fn window(alpha: int, beta: int) -> bool {
    -WINDOW <= alpha < beta <= WINDOW
}

/// A window that a node at `ply` can be searched with: at the root it may be open above.
pub open spec fn opened(alpha: int, beta: int, ply: int) -> bool {
    &&& -WINDOW <= alpha < beta
    &&& beta <= (if ply == 0 {
        search::REACH + 1
    } else {
        WINDOW as int
    })
}

/// Stores a result in the table.
pub(crate) fn remember(
    s: &mut Searcher,
    hash: u64,
    ply: usize,
    depth: i32,
    score: i32,
    mv: Move,
    bound: Bound,
    pv: bool,
    eval: i32,
)
    requires
        old(s).wf(),
        ply <= MAX_PLY,
        -search::cap(ply as int) <= score <= search::cap(ply as int),
        -10_000 <= depth <= 10_000,
        mv.0 == 0 || mv.canonical(),
    ensures
        final(s).wf(),
        final(s).calm(*old(s)),
        final(s).nodes == old(s).nodes,
        tt::stored(
            old(s).tt,
            final(s).tt,
            hash,
            ply as int,
            depth as int,
            score as int,
            mv,
            bound,
            pv,
            eval as int,
        ),
{
    proof {
        reveal(Searcher::kept);
    }
    let ghost t0 = s.tt;
    s.tt.store(hash, ply, depth, score, mv, bound, pv, eval);
    proof {
        tt::lemma_store_within(
            t0,
            s.tt,
            hash,
            ply as int,
            depth as int,
            score as int,
            mv,
            bound,
            pv,
            eval as int,
            search::REACH as int,
        );
    }
}

/// The moves of a list.
pub open spec fn moves_of(rm: Seq<RootMove>) -> Seq<Move> {
    Seq::new(rm.len(), |i: int| rm[i].mv)
}

/// What the table says of `p`. A slot whose move cannot be played belongs to another
/// position, and counts as a miss.
#[verifier::opaque]
pub open spec fn told(t: TranspositionTable, p: Position, ply: int) -> TtData {
    let d = t.known(p.hash, ply);
    if d.raw_mv.0 == 0 || legal::pseudo_legal(p, d.raw_mv) {
        d
    } else {
        TtData::absent()
    }
}

/// A draw by rule: by fifty moves, by material, or below the root by repetition.
pub open spec fn ended(p: Position, trail: Seq<u64>, ply: int) -> bool {
    search::drawn(p) || (ply > 0 && search::repeated(trail, p.halfmove_clock as int, p.hash))
}

/// What a draw is scored once `nodes` nodes were entered before: a hair off zero.
pub open spec fn drawish(nodes: u64) -> int {
    let n = if nodes == u64::MAX {
        nodes as int
    } else {
        nodes + 1
    };
    if n % 4 >= 2 {
        1
    } else {
        -1
    }
}

/// The worst that a node below the root can score: being mated here.
pub open spec fn lower(node: NodeType, alpha: int, ply: int) -> int {
    if node == NodeType::RootNode {
        alpha
    } else {
        legal::greater(alpha, ply - MATE)
    }
}

/// The best that a node below the root can score: mating with the next move.
pub open spec fn upper(node: NodeType, beta: int, ply: int) -> int {
    if node == NodeType::RootNode {
        beta
    } else {
        legal::lesser(beta, MATE - ply - 1)
    }
}

/// A node gets past the tests at its door: neither the rules nor the table settle it, it has
/// depth left, and the window is open.
pub open spec fn passed_door(
    w: Worker,
    s: Searcher,
    node: NodeType,
    depth: int,
    alpha: int,
    beta: int,
    ply: int,
    excluded: Move,
) -> bool {
    let lo = lower(node, alpha, ply);
    let hi = upper(node, beta, ply);
    &&& !ended(w.pos, s.zobrist_trail@, ply)
    &&& 0 < depth
    &&& ply < MAX_PLY
    &&& lo < hi
    &&& !table_cuts(s.tt, w.pos, node, depth, lo, hi, ply, excluded)
}

/// What a node leaves behind that gets past the tests at its door.
#[verifier::opaque]
pub open spec fn marked(
    w0: Worker,
    s0: Searcher,
    node: NodeType,
    depth: int,
    alpha: int,
    beta: int,
    ply: int,
    excluded: Move,
    after_null: bool,
    r: Result<i32, SearchAborted>,
    w1: Worker,
    s1: Searcher,
) -> bool {
    let lo = lower(node, alpha, ply);
    let hi = upper(node, beta, ply);
    passed_door(w0, s0, node, depth, alpha, beta, ply, excluded) ==> {
        &&& r matches Ok(x) ==> value::recorded(w0, s0, node, depth, lo, hi, ply, excluded, after_null, x as int, w1, s1)
        // With its only move set aside, a node fails low.
        &&& ply > 0 && excluded.0 != 0 && step::stuck(w0.pos, excluded) ==> {
            &&& r matches Ok(x) ==> x == lo
            &&& s0.nodes % NODE_CHECK_INTERVAL != 0 ==> r is Ok
        }
    }
}

/// A scout takes the table's word.
#[verifier::opaque]
pub open spec fn table_cuts(
    t: TranspositionTable,
    p: Position,
    node: NodeType,
    depth: int,
    alpha: int,
    beta: int,
    ply: int,
    excluded: Move,
) -> bool {
    let d = told(t, p, ply);
    node == NodeType::NonPvNode && excluded.0 == 0 && d.depth >= depth && tt::settles(d.bound, d.score as int, alpha, beta)
}

/// The two workers look alike to a node at `ply` that has not looked at its moves.
pub open spec fn alike(a: Worker, b: Worker, ply: int) -> bool {
    &&& a.pos == b.pos
    &&& a.accumulator == b.accumulator
    &&& a.history == b.history
    &&& a.pawn_cache == b.pawn_cache
    &&& ply >= 2 ==> a.stack@[ply - 2] == b.stack@[ply - 2]
    &&& memory::marks(a.stack@) == memory::marks(b.stack@)
}

/// The two searches look alike to a node.
pub open spec fn akin(a: Searcher, b: Searcher) -> bool {
    a.cfg == b.cfg && a.tt == b.tt && a.zobrist_trail@ == b.zobrist_trail@
}

pub(crate) proof fn lemma_gauged_alike(a: Worker, b: Worker, ply: int, x: int)
    requires
        alike(a, b, ply),
        a.gauged(x),
    ensures
        b.gauged(x),
{
    reveal(Worker::judged);
    let raw = choose|raw: int| #[trigger]
        a.judged(raw) && x == history::clamped(raw, -MATE_BOUND as int, MATE_BOUND as int);
    assert(b.judged(raw));
}

/// The table says `data` of `p` and names `mv`.
#[verifier::opaque]
pub open spec fn consulted(s: Searcher, p: Position, ply: int, data: TtData, mv: Option<Move>) -> bool {
    let d = s.tt.known(p.hash, ply);
    if d.raw_mv.0 == 0 {
        data == d && mv is None
    } else if legal::pseudo_legal(p, d.raw_mv) {
        data == d && mv == Some(d.raw_mv)
    } else {
        data == TtData::absent() && mv is None
    }
}

/// What the table says at a node, and the move it names. A key that matches by accident
/// shows in a move that cannot be played; then the whole slot counts as a miss.
pub(crate) fn consult(s: &Searcher, pos: &Position, ply: usize) -> (r: (TtData, Option<Move>))
    requires
        s.wf(),
        pos.wf(),
        ply <= MAX_PLY,
    ensures
        r.0.bound != Bound::Empty ==> -search::cap(ply as int) <= r.0.score <= search::cap(ply as int),
        r.0.bound == Bound::Empty ==> r.0 == TtData::absent(),
        0 <= r.0.depth <= 255,
        -32768 <= r.0.eval <= 32767,
        r.1 matches Some(m) ==> m.canonical() && legal::pseudo_legal(*pos, m),
        consulted(*s, *pos, ply as int, r.0, r.1),
{
    proof {
        reveal(consulted);
    }
    proof {
        reveal(Searcher::kept);
    }
    let d = s.tt.probe(pos.hash, ply);
    proof {
        tt::lemma_known_within(s.tt, pos.hash, ply as int, search::REACH as int);
    }
    match d.mv(pos) {
        TtMove::Null => (d, None),
        TtMove::Found(m) => (d, Some(m)),
        TtMove::Collision => (missing(), None),
    }
}

impl Worker {
    /// What the table says of the board.
    pub(crate) fn consult(&self, s: &Searcher, ply: usize) -> (r: (TtData, Option<Move>))
        requires
            self.wf(),
            s.wf(),
            ply <= MAX_PLY,
        ensures
            r.0.bound != Bound::Empty ==> -search::cap(ply as int) <= r.0.score <= search::cap(ply as int),
            r.0.bound == Bound::Empty ==> r.0 == TtData::absent(),
            0 <= r.0.depth <= 255,
            -32768 <= r.0.eval <= 32767,
            step::names(self.pos, r.1),
            consulted(*s, self.pos, ply as int, r.0, r.1),
            r.0 == told(s.tt, self.pos, ply as int),
    {
        proof {
            reveal(Worker::kept);
            reveal(step::names);
            reveal(consulted);
            reveal(told);
        }
        consult(s, &self.pos, ply)
    }
}

/// Nothing known of a position.
pub(crate) fn unknown(pos: &Position) -> (r: (TtData, Option<Move>))
    ensures
        r.0 == TtData::absent(),
        r.1 is None,
        step::names(*pos, r.1),
{
    proof {
        reveal(step::names);
    }
    (missing(), None)
}

/// Nothing known.
pub(crate) fn missing() -> (d: TtData)
    ensures
        d == TtData::absent(),
{
    TtData { raw_mv: Move::null(), pv: false, eval: SCORE_NONE, score: SCORE_NONE, bound: Bound::Empty, depth: 0 }
}

/// The bound that a best score proves against a window.
pub open spec fn bound_of(best: int, alpha: int, beta: int) -> Bound {
    if best >= beta {
        Bound::Lower
    } else if best > alpha {
        Bound::Exact
    } else {
        Bound::Upper
    }
}

pub(crate) fn bound_for(best: i32, alpha: i32, beta: i32) -> (b: Bound)
    ensures
        b == bound_of(best as int, alpha as int, beta as int),
{
    if best >= beta {
        Bound::Lower
    } else if best > alpha {
        Bound::Exact
    } else {
        Bound::Upper
    }
}

impl Worker {
    /// The score of the position from the side to move, by alpha-beta with the window from
    /// `alpha` to `beta`. [`value::valued`] says which scores that can be.
    #[verifier::rlimit(50)]
    #[verifier::spinoff_prover]
    pub fn negamax(
        &mut self,
        s: &mut Searcher,
        node: NodeType,
        depth: i32,
        alpha: i32,
        beta: i32,
        ply: usize,
        excluded: Move,
        after_null: bool,
    ) -> (r: Result<i32, SearchAborted>)
        requires
            old(self).wf(),
            old(s).wf(),
            ply <= MAX_PLY,
            (node == NodeType::RootNode) == (ply == 0),
            ply == 0 ==> old(s).rooted() && old(self).pos == old(s).root_pos && depth >= 1,
            opened(alpha as int, beta as int, ply as int),
            -10_000 <= depth <= 250 + ply,
        ensures
            final(self).back(*old(self), ply as int),
            final(self).lined(ply as int),
            final(s).wf(),
            final(s).steady(*old(s)),
            ply > 0 ==> final(s).root_moves@ == old(s).root_moves@,
            ply == 0 ==> final(s).rooted(),
            moves_of(final(s).root_moves@) == moves_of(old(s).root_moves@),
            answered(r, *old(s), *final(s), ply as int),
            old(s).nodes % NODE_CHECK_INTERVAL != 0 && ended(old(self).pos, old(s).zobrist_trail@, ply as int) ==> r is Ok,
            ended(old(self).pos, old(s).zobrist_trail@, ply as int) ==> (r matches Ok(x) ==> x == drawish(old(s).nodes)),
            r matches Ok(x) ==> value::valued(
                *old(self),
                *old(s),
                node,
                depth as int,
                alpha as int,
                beta as int,
                ply as int,
                excluded,
                after_null,
                x as int,
            ),
            value::heir(
                old(self).pos,
                *old(s).cfg,
                memory::origin(*old(self), *old(s)),
                ply as int,
                value::height(depth as int) + 1,
                memory::memory(*final(self), *final(s)),
            ),
            marked(
                *old(self),
                *old(s),
                node,
                depth as int,
                alpha as int,
                beta as int,
                ply as int,
                excluded,
                after_null,
                r,
                *final(self),
                *final(s),
            ),
            ply == 0 && !search::drawn(old(self).pos) && old(s).root_moves@.len() > 0 ==> (r matches Ok(x) ==> x < beta
                ==> exists|k: int|
                loops::leads(final(s).root_moves@, old(self).pos, old(s).root_moves@.len() as int, k, x as int)),
        decreases MAX_PLY + 1 - ply,
            if depth > 0 {
                depth as int
            } else {
                0
            },
            12int,
    {
        let ghost w0 = *self;
        let ghost s0 = *s;
        let ghost o = memory::origin(w0, s0);
        let ghost h = value::height(depth as int) + 1;
        proof {
            value::lemma_heir_starts(w0.pos, *s0.cfg, o, ply as int, h);
        }
        self.clear_line(ply);
        if s.nodes % NODE_CHECK_INTERVAL == 0 && s.check_signals() {
            assert(due(s.nodes as int));
            assert(marked(
                w0,
                s0,
                node,
                depth as int,
                alpha as int,
                beta as int,
                ply as int,
                excluded,
                after_null,
                Err(SearchAborted),
                *self,
                *s,
            )) by {
                reveal(marked);
            }
            return Err(SearchAborted);
        }
        s.enter_node();
        if self.is_draw(ply, &s.zobrist_trail) {
            let x: i32 = draw_score(s.nodes);
            assert(value::valued(w0, s0, node, depth as int, alpha as int, beta as int, ply as int, excluded, after_null, x as int)) by {
                reveal(value::valued);
            }
            assert(marked(
                w0,
                s0,
                node,
                depth as int,
                alpha as int,
                beta as int,
                ply as int,
                excluded,
                after_null,
                Ok(x),
                *self,
                *s,
            )) by {
                reveal(marked);
            }
            return Ok(x);
        }
        s.note_ply(ply);
        assert(memory::origin(*self, *s) == o);
        if depth <= 0 {
            let ghost w1 = *self;
            let ghost s1 = *s;
            let r = self.qsearch(s, node, alpha, beta, ply, None, 0);
            proof {
                if let Ok(x) = r {
                    value::lemma_calmed_alike(
                        w1,
                        w0,
                        s1,
                        s0,
                        node,
                        alpha as int,
                        beta as int,
                        ply as int,
                        None,
                        0,
                        x as int,
                    );
                    reveal(value::valued);
                }
            }
            assert(marked(
                w0,
                s0,
                node,
                depth as int,
                alpha as int,
                beta as int,
                ply as int,
                excluded,
                after_null,
                r,
                *self,
                *s,
            )) by {
                reveal(marked);
            }
            return r;
        }
        if ply >= MAX_PLY {
            let ghost w1 = *self;
            let x: i32 = self.gauge();
            proof {
                value::lemma_heir_learns(w0.pos, *s0.cfg, o, ply as int, h, o.memory, memory::memory(*self, *s));
            }
            assert(value::valued(w0, s0, node, depth as int, alpha as int, beta as int, ply as int, excluded, after_null, x as int)) by {
                lemma_gauged_alike(w1, w0, ply as int, x as int);
                reveal(value::valued);
            }
            assert(marked(
                w0,
                s0,
                node,
                depth as int,
                alpha as int,
                beta as int,
                ply as int,
                excluded,
                after_null,
                Ok(x),
                *self,
                *s,
            )) by {
                reveal(marked);
            }
            return Ok(x);
        }
        self.reset_cutoffs(ply + 2);
        // Mate distance pruning: no score is below being mated here or above mating next.
        let mut lo: i32 = alpha;
        let mut hi: i32 = beta;
        if node != NodeType::RootNode {
            let worst: i32 = mated_in(ply);
            let best: i32 = mate_in(ply + 1);
            if lo < worst {
                lo = worst;
            }
            if hi > best {
                hi = best;
            }
            if lo >= hi {
                assert(value::valued(w0, s0, node, depth as int, alpha as int, beta as int, ply as int, excluded, after_null, lo as int)) by {
                    reveal(value::valued);
                }
                assert(marked(
                    w0,
                    s0,
                    node,
                    depth as int,
                    alpha as int,
                    beta as int,
                    ply as int,
                    excluded,
                    after_null,
                    Ok(lo),
                    *self,
                    *s,
                )) by {
                    reveal(marked);
                }
                return Ok(lo);
            }
        }
        let ghost w1 = *self;
        let ghost s1 = *s;
        assert(memory::origin(w1, s1) == o);
        let r = self.expand(s, node, depth, lo, hi, ply, excluded, after_null);
        proof {
            if let Ok(x) = r {
                if !table_cuts(s0.tt, w0.pos, node, depth as int, lo as int, hi as int, ply as int, excluded) {
                    value::lemma_recorded_alike(
                        w1,
                        w0,
                        s1,
                        s0,
                        node,
                        depth as int,
                        lo as int,
                        hi as int,
                        ply as int,
                        excluded,
                        after_null,
                        x as int,
                        *self,
                        *s,
                    );
                }
                value::lemma_valued(
                    w0,
                    s0,
                    node,
                    depth as int,
                    alpha as int,
                    beta as int,
                    ply as int,
                    excluded,
                    after_null,
                    x as int,
                    *self,
                    *s,
                );
            }
        }
        assert(marked(
            w0,
            s0,
            node,
            depth as int,
            alpha as int,
            beta as int,
            ply as int,
            excluded,
            after_null,
            r,
            *self,
            *s,
        )) by {
            reveal(marked);
        }
        r
    }

    /// A node past the tests at its door.
    pub(crate) fn expand(
        &mut self,
        s: &mut Searcher,
        node: NodeType,
        depth: i32,
        alpha: i32,
        beta: i32,
        ply: usize,
        excluded: Move,
        after_null: bool,
    ) -> (r: Result<i32, SearchAborted>)
        requires
            old(self).wf(),
            old(self).lined(ply as int),
            old(s).wf(),
            ply < MAX_PLY,
            (node == NodeType::RootNode) == (ply == 0),
            ply == 0 ==> old(s).rooted() && old(self).pos == old(s).root_pos,
            opened(alpha as int, beta as int, ply as int),
            1 <= depth <= 250 + ply,
        ensures
            final(self).back(*old(self), ply as int),
            final(self).lined(ply as int),
            final(s).wf(),
            final(s).steady(*old(s)),
            ply > 0 ==> final(s).root_moves@ == old(s).root_moves@,
            ply == 0 ==> final(s).rooted(),
            moves_of(final(s).root_moves@) == moves_of(old(s).root_moves@),
            answered(r, *old(s), *final(s), ply as int),
            value::heir(
                old(self).pos,
                *old(s).cfg,
                memory::origin(*old(self), *old(s)),
                ply as int,
                value::height(depth as int) + 1,
                memory::memory(*final(self), *final(s)),
            ),
            table_cuts(
                old(s).tt,
                old(self).pos,
                node,
                depth as int,
                alpha as int,
                beta as int,
                ply as int,
                excluded,
            ) ==> r == Ok::<i32, SearchAborted>(told(old(s).tt, old(self).pos, ply as int).score),
            !table_cuts(
                old(s).tt,
                old(self).pos,
                node,
                depth as int,
                alpha as int,
                beta as int,
                ply as int,
                excluded,
            ) ==> (r matches Ok(x) ==> value::recorded(
                *old(self),
                *old(s),
                node,
                depth as int,
                alpha as int,
                beta as int,
                ply as int,
                excluded,
                after_null,
                x as int,
                *final(self),
                *final(s),
            )),
            // With its only move set aside, the node fails low.
            ply > 0 && excluded.0 != 0 && step::stuck(old(self).pos, excluded) ==> r == Ok::<i32, SearchAborted>(alpha),
            // Off the scouts, a mate is a mate and a stalemate a draw, whatever the table says.
            node == NodeType::PvNode && excluded.0 == 0 && step::stuck(old(self).pos, Move(0)) ==> r == Ok::<
                i32,
                SearchAborted,
            >(
                if step::checked(old(self).pos) {
                    (ply - MATE) as i32
                } else {
                    0
                },
            ),
            ply == 0 && old(s).root_moves@.len() > 0 ==> (r matches Ok(x) ==> x < beta ==> exists|k: int|
                loops::leads(final(s).root_moves@, old(self).pos, old(s).root_moves@.len() as int, k, x as int)),
        decreases MAX_PLY + 1 - ply, depth as int, 11int,
    {
        // No probe while a move is set aside: the entry would be that very move's.
        let (data, tt_move) = if excluded.is_null() {
            self.consult(s, ply)
        } else {
            unknown(&self.pos)
        };
        let ghost w0 = *self;
        let ghost s0 = *s;
        let ghost o = memory::origin(w0, s0);
        let ghost h = value::height(depth as int);
        proof {
            value::lemma_heir_starts(w0.pos, *s0.cfg, o, ply as int, h);
            value::lemma_heir_starts(w0.pos, *s0.cfg, o, ply as int, h + 1);
        }
        let cut = !node.is_pv() && data.depth >= depth && can_cutoff(data.bound, data.score, alpha, beta);
        assert(cut == table_cuts(s0.tt, w0.pos, node, depth as int, alpha as int, beta as int, ply as int, excluded)) by {
            reveal(table_cuts);
        }
        if cut {
            return Ok(data.score);
        }
        let ctx = self.survey(s, node, depth, beta, ply, excluded, data, tt_move);
        assert(value::surveyed(w0, s0, node, depth as int, beta as int, ply as int, excluded, ctx)) by {
            reveal(value::surveyed);
        }
        let ghost cfg = *s0.cfg;
        // The evaluation is marked: what follows is added to that.
        let ghost o = value::outlook(w0, s0, ctx);
        assert(ctx.node == node && ctx.entry_depth == depth && ctx.beta == beta && ctx.excluded == excluded && ctx.ply == ply)
            by {
            reveal(value::surveyed);
        }
        proof {
            value::lemma_heir_starts(w0.pos, cfg, o, ply as int, h);
            value::lemma_heir_learns(w0.pos, cfg, o, ply as int, h, o.memory, memory::memory(*self, *s));
            value::lemma_heir_settles(w0, s0, ply as int, h, h + 1, ctx, memory::memory(*self, *s));
        }
        let ghost roots = value::roots_of(s0, ply as int);
        // A check is forcing: the reply is always searched.
        let mut d: i32 = if ctx.in_check {
            depth + 1
        } else {
            depth
        };
        proof {
            value::lemma_spared(w0.pos, cfg, o, w0.is_nmp_verif, ctx, alpha as int, after_null);
            if !ctx.prunable() {
                value::lemma_held_out(w0.pos, cfg, o, w0.is_nmp_verif, ctx, alpha as int, after_null);
            }
        }
        if !node.is_pv() && !ctx.in_check && excluded.is_null() {
            assert(prunings::born(w0, s0, *self, *s, ctx)) by {
                reveal(prunings::born);
            }
            let out = self.try_prunings(s, &ctx, alpha, after_null, Ghost(w0), Ghost(s0));
            proof {
                value::lemma_heir_settles(w0, s0, ply as int, h + 1, h + 1, ctx, memory::memory(*self, *s));
            }
            if let Some(x) = out? {
                assert(value::recorded(
                    w0,
                    s0,
                    node,
                    depth as int,
                    alpha as int,
                    beta as int,
                    ply as int,
                    excluded,
                    after_null,
                    x as int,
                    *self,
                    *s,
                )) by {
                    reveal(value::recorded);
                }
                return Ok(x);
            }
        }
        // Without a move from the table the node is searched blind, and blind ordering does
        // not deserve full depth.
        if d >= s.cfg.search_params.iir_depth() && tt_move.is_none() {
            d = d - s.cfg.search_params.iir_reduction();
        }
        let res = if node == NodeType::RootNode {
            let out = self.search_root(s, &ctx, d, alpha, Ghost(o));
            proof {
                value::lemma_heir_wider(w0.pos, cfg, o, ply as int, h, h + 1, memory::memory(*self, *s));
                value::lemma_heir_settles(w0, s0, ply as int, h, h + 1, ctx, memory::memory(*self, *s));
            }
            out?
        } else {
            let out = self.search_moves(s, &ctx, d, alpha, Ghost(o));
            proof {
                value::lemma_heir_wider(w0.pos, cfg, o, ply as int, h, h + 1, memory::memory(*self, *s));
                value::lemma_heir_settles(w0, s0, ply as int, h, h + 1, ctx, memory::memory(*self, *s));
            }
            match out? {
                LoopEnd::Searched(res) => res,
                LoopEnd::Cut(c) => {
                    assert(value::recorded(
                        w0,
                        s0,
                        node,
                        depth as int,
                        alpha as int,
                        beta as int,
                        ply as int,
                        excluded,
                        after_null,
                        c as int,
                        *self,
                        *s,
                    )) by {
                        value::lemma_early(
                            w0.pos,
                            cfg,
                            o,
                            roots,
                            w0.is_nmp_verif,
                            ctx,
                            alpha as int,
                            after_null,
                            c as int,
                        );
                        reveal(value::recorded);
                    }
                    return Ok(c);
                },
            }
        };
        if res.move_count == 0 {
            // With its only move set aside, the node fails low.
            let x: i32 = if !excluded.is_null() {
                alpha
            } else if ctx.in_check {
                mated_in(ply)
            } else {
                0
            };
            assert(value::recorded(
                w0,
                s0,
                node,
                depth as int,
                alpha as int,
                beta as int,
                ply as int,
                excluded,
                after_null,
                x as int,
                *self,
                *s,
            )) by {
                value::lemma_early(w0.pos, cfg, o, roots, w0.is_nmp_verif, ctx, alpha as int, after_null, x as int);
                reveal(value::recorded);
            }
            return Ok(x);
        }
        let ghost w1 = *self;
        let ghost s1 = *s;
        self.conclude(s, &ctx, &res, d, alpha);
        proof {
            lemma_concludes(
                w0,
                s0,
                node,
                depth as int,
                alpha as int,
                beta as int,
                ply as int,
                excluded,
                after_null,
                ctx,
                res,
                w1,
                s1,
                *self,
                *s,
            );
        }
        Ok(res.best_eval)
    }

    /// What a node sees before it searches: checks, pins, and the evaluation.
    pub(crate) fn survey(
        &mut self,
        s: &Searcher,
        node: NodeType,
        depth: i32,
        beta: i32,
        ply: usize,
        excluded: Move,
        data: TtData,
        tt_move: Option<Move>,
    ) -> (ctx: NodeCtx)
        requires
            old(self).wf(),
            s.wf(),
            ply < MAX_PLY,
            (node == NodeType::RootNode) == (ply == 0),
            1 <= depth <= 250 + ply,
            -WINDOW < beta <= (if ply == 0 {
                search::REACH + 1
            } else {
                WINDOW as int
            }),
            data.bound != Bound::Empty ==> -search::cap(ply as int) <= data.score <= search::cap(ply as int),
            data.bound == Bound::Empty ==> data.score == SCORE_NONE,
            0 <= data.depth <= 255,
            -32768 <= data.eval <= 32767,
            step::names(old(self).pos, tt_move),
        ensures
            final(self).sketched(
                *old(self),
                ply as int,
                (Stack {
                    static_eval: if ctx.in_check && ply >= 2 {
                        old(self).stack@[ply - 2].static_eval
                    } else {
                        ctx.static_eval
                    },
                    ..old(self).stack@[ply as int]
                }),
            ),
            ctx.fits(old(self).pos),
            ctx.node == node,
            ctx.ply == ply,
            ctx.entry_depth == depth,
            ctx.beta == beta,
            ctx.excluded == excluded,
            ctx.tt == data,
            ctx.tt_move == tt_move,
            ctx.in_check == step::checked(old(self).pos),
            if ctx.in_check {
                ctx.raw_eval == SCORE_NONE && ctx.static_eval == SCORE_NONE
            } else {
                &&& ctx.static_eval == history::clamped(
                    ctx.raw_eval + old(self).correction_spec(s.cfg.search_params),
                    -MATE_BOUND as int,
                    MATE_BOUND as int,
                )
                &&& if data.eval != SCORE_NONE {
                    ctx.raw_eval == data.eval
                } else {
                    old(self).judged(ctx.raw_eval as int)
                }
            },
            ctx.improving == (!ctx.in_check && (ply < 2 || old(self).stack@[ply - 2].static_eval == SCORE_NONE
                || ctx.static_eval > old(self).stack@[ply - 2].static_eval)),
    {
        let (checkers, in_check) = self.checks();
        let raw: i32 = if in_check {
            SCORE_NONE
        } else if data.eval != SCORE_NONE {
            data.eval
        } else {
            self.evaluate()
        };
        let static_eval: i32 = if in_check {
            SCORE_NONE
        } else {
            self.corrected_eval(raw, &s.cfg.search_params)
        };
        // A node in check passes on what its grandparent knew.
        let past: i32 = if ply >= 2 {
            self.stack[ply - 2].static_eval
        } else {
            SCORE_NONE
        };
        self.note_eval(
            ply,
            if in_check && ply >= 2 {
                past
            } else {
                static_eval
            },
        );
        let improving = !in_check && (past == SCORE_NONE || static_eval > past);
        let pins = self.pins();
        let ctx = NodeCtx {
            node,
            ply,
            entry_depth: depth,
            beta,
            in_check,
            checkers,
            static_eval,
            raw_eval: raw,
            improving,
            excluded,
            tt: data,
            tt_move,
            pins,
        };
        assert(ctx.sees(self.pos)) by {
            reveal(NodeCtx::sees);
            reveal(step::pinning);
            reveal(step::checking);
            reveal(step::names);
        }
        ctx
    }

    /// Records what a node has found: the table, unless a move was set aside, and the
    /// correction history, unless tactics decided or the bound says nothing.
    pub(crate) fn conclude(&mut self, s: &mut Searcher, ctx: &NodeCtx, res: &MoveResult, depth: i32, alpha: i32)
        requires
            old(self).wf(),
            old(s).wf(),
            ctx.fits(old(self).pos),
            res.fits(old(self).pos, ctx.ply as int),
            res.move_count > 0,
            -1 <= depth <= 1000,
        ensures
            final(self).wf(),
            final(self).pos == old(self).pos,
            final(self).accumulator == old(self).accumulator,
            final(self).stack == old(self).stack,
            final(self).is_nmp_verif == old(self).is_nmp_verif,
            final(s).wf(),
            final(s).calm(*old(s)),
            final(self).history.grown(old(self).history),
            final(self).pawn_cache == old(self).pawn_cache,
            concluded(*old(self), *old(s), *final(self), *final(s), *ctx, *res, depth as int, alpha as int),
    {
        proof {
            reveal(concluded);
        }
        if !ctx.excluded.is_null() {
            return;
        }
        proof {
            reveal(Worker::kept);
            reveal(search::may);
        }
        let bound = bound_for(res.best_eval, alpha, ctx.beta);
        let pv = ctx.node.is_pv() || ctx.tt.pv;
        remember(s, self.pos.hash, ctx.ply, depth, res.best_eval, res.best_move, bound, pv, ctx.raw_eval);
        let telling = !((bound == Bound::Lower && res.best_eval <= ctx.static_eval) || (bound == Bound::Upper && res.best_eval
            >= ctx.static_eval));
        if !ctx.in_check && !res.best_move.is_null() && !res.best_move.is_tactical() && !is_mate(res.best_eval) && telling {
            let diff: i32 = res.best_eval - ctx.raw_eval;
            let stm = self.pos.stm;
            self.history.update_correction(
                stm,
                self.pos.pawn_key,
                self.pos.minor_key,
                self.pos.major_key,
                diff,
                depth,
            );
            proof {
                history::lemma_grown_by_a_lesson(old(self).history, self.history);
            }
        }
    }
}

/// A node that has searched its moves adds its result to what is remembered.
proof fn lemma_concludes(
    w0: Worker,
    s0: Searcher,
    node: NodeType,
    depth: int,
    alpha: int,
    beta: int,
    ply: int,
    excluded: Move,
    after_null: bool,
    ctx: NodeCtx,
    res: MoveResult,
    w1: Worker,
    s1: Searcher,
    w2: Worker,
    s2: Searcher,
)
    requires
        w0.wf(),
        s0.wf(),
        ply <= MAX_PLY,
        value::surveyed(w0, s0, node, depth, beta, ply, excluded, ctx),
        ({
            let p = w0.pos;
            let cfg = *s0.cfg;
            let o = value::outlook(w0, s0, ctx);
            let roots = value::roots_of(s0, ply);
            let v = w0.is_nmp_verif;
            let x = res.best_eval as int;
            &&& !(ctx.prunable() && ctx.far_above(cfg.search_params))
            &&& !value::barren(p, roots, ctx)
            &&& value::held_out(p, cfg, o, v, ctx, depth, ply, alpha, after_null)
            &&& value::searched(p, cfg, o, roots, v, ctx, depth, ply, alpha, x)
            &&& value::found(p, cfg, o, roots, v, ctx, depth, ply, alpha, x, res.best_move)
            &&& value::heir(p, cfg, o, ply, value::height(depth) + 1, memory::memory(w1, s1))
            &&& w1.pos == p
            &&& concluded(w1, s1, w2, s2, ctx, res, ctx.loop_depth(cfg.search_params), alpha)
            &&& w2.history.grown(w1.history)
            &&& w2.pawn_cache == w1.pawn_cache
            &&& w2.stack == w1.stack
        }),
    ensures
        value::heir(
            w0.pos,
            *s0.cfg,
            memory::origin(w0, s0),
            ply,
            value::height(depth) + 1,
            memory::memory(w2, s2),
        ),
        value::recorded(
            w0,
            s0,
            node,
            depth,
            alpha,
            beta,
            ply,
            excluded,
            after_null,
            res.best_eval as int,
            w2,
            s2,
        ),
{
    let p = w0.pos;
    let cfg = *s0.cfg;
    let o = value::outlook(w0, s0, ctx);
    let roots = value::roots_of(s0, ply);
    let h = value::height(depth) + 1;
    let x = res.best_eval as int;
    let d = ctx.loop_depth(cfg.search_params);
    assert(ctx.node == node && ctx.ply == ply && ctx.entry_depth == depth && ctx.beta == beta && ctx.excluded == excluded)
        by {
        reveal(value::surveyed);
    }
    value::lemma_late(p, cfg, o, roots, w0.is_nmp_verif, ctx, alpha, after_null, x);
    let m = Memory { tt: s1.tt, ..memory::memory(w2, s2) };
    value::lemma_heir_learns(p, cfg, o, ply, h, memory::memory(w1, s1), m);
    if excluded.0 == 0 {
        let f = value::Find {
            way: value::Way::Moves,
            node,
            depth,
            alpha,
            beta,
            ply,
            after_null,
            prev: None,
            qs_ply: 0,
            ctx,
            raw: 0,
            x,
            mv: res.best_move,
        };
        assert(excluded == Move(0));
        assert(value::reported(cfg, w0, s0, f)) by {
            reveal(value::reported);
        }
        assert(f.kept(cfg.search_params, p, s0.tt, s1.tt, s2.tt)) by {
            reveal(concluded);
        }
        value::lemma_heir_stores(w0, s0, o, ply, h, m, memory::memory(w2, s2), f);
    } else {
        assert(s2.tt == s1.tt) by {
            reveal(concluded);
        }
        assert(m == memory::memory(w2, s2));
    }
    value::lemma_heir_settles(w0, s0, ply, h, h, ctx, memory::memory(w2, s2));
    assert(value::named(w0, s0, ctx, depth, ply, alpha, x, w2, s2)) by {
        reveal(value::named);
        assert(value::noted(p, ctx, d, alpha, x, res.best_move, w2, s2)) by {
            reveal(value::noted);
        }
    }
    reveal(value::recorded);
}

/// What a node that searched its moves leaves on record: the result in the table, unless a
/// move was set aside, and the difference to the evaluation in the correction history, unless
/// tactics decided or the bound says nothing.
#[verifier::opaque]
pub open spec fn concluded(
    w0: Worker,
    s0: Searcher,
    w1: Worker,
    s1: Searcher,
    ctx: NodeCtx,
    res: MoveResult,
    depth: int,
    alpha: int,
) -> bool {
    let p = w0.pos;
    let bound = bound_of(res.best_eval as int, alpha, ctx.beta as int);
    &&& ctx.excluded.0 != 0 ==> s1.tt == s0.tt
    &&& ctx.excluded.0 == 0 ==> tt::stored(
        s0.tt,
        s1.tt,
        p.hash,
        ctx.ply as int,
        depth,
        res.best_eval as int,
        res.best_move,
        bound,
        ctx.node.is_pv() || ctx.tt.pv,
        ctx.raw_eval as int,
    )
    &&& if ctx.excluded.0 == 0 && tells(ctx, res, bound) {
        w1.history.corrected(
            w0.history,
            p.stm,
            p.pawn_key,
            p.minor_key,
            p.major_key,
            res.best_eval - ctx.raw_eval,
            depth,
        )
    } else {
        w1.history == w0.history
    }
}

/// Whether a node's result says something of the evaluation: off checks, mates and tactics, and
/// where the bound does not point away from the difference.
pub open spec fn tells(ctx: NodeCtx, res: MoveResult, bound: Bound) -> bool {
    &&& !ctx.in_check && res.best_move.0 != 0
    &&& !res.best_move.captures() && !res.best_move.promotes()
    &&& !defs::wins(res.best_eval as int) && !defs::loses(res.best_eval as int)
    &&& !(bound == Bound::Lower && res.best_eval <= ctx.static_eval)
    &&& !(bound == Bound::Upper && res.best_eval >= ctx.static_eval)
}

impl NodeCtx {
    /// The evaluation, moved into the range that the table's score proves.
    pub open spec fn lead(self) -> int {
        if defs::wins(self.tt.score as int) || defs::loses(self.tt.score as int) {
            self.static_eval as int
        } else {
            match self.tt.bound {
                Bound::Exact => self.tt.score as int,
                Bound::Lower => legal::greater(self.static_eval as int, self.tt.score as int),
                Bound::Upper => legal::lesser(self.static_eval as int, self.tt.score as int),
                Bound::Empty => self.static_eval as int,
            }
        }
    }
}

/// A draw is worth one or minus one, and turns every two nodes.
pub proof fn law_a_draw_is_a_hair_off_zero(nodes: u64)
    ensures
        drawish(nodes) == 1 || drawish(nodes) == -1,
        nodes < u64::MAX - 2 ==> drawish((nodes + 2) as u64) == -drawish(nodes),
{
}

/// Below the root no score is worse than being mated on the spot or better than mating with the
/// next move, and a window is only cut where it reaches beyond that. The root's is left alone.
pub proof fn law_windows_are_cut_at_the_nearest_mates(alpha: int, beta: int, ply: int, node: NodeType)
    ensures
        lower(NodeType::RootNode, alpha, ply) == alpha,
        upper(NodeType::RootNode, beta, ply) == beta,
        node != NodeType::RootNode ==> lower(node, alpha, ply) >= ply - 30000 && lower(node, alpha, ply) >= alpha,
        node != NodeType::RootNode ==> upper(node, beta, ply) <= 30000 - (ply + 1) && upper(node, beta, ply) <= beta,
        alpha >= ply - 30000 ==> lower(node, alpha, ply) == alpha,
        beta <= 30000 - (ply + 1) ==> upper(node, beta, ply) == beta,
        node != NodeType::RootNode && alpha < ply - 30000 ==> lower(node, alpha, ply) == ply - 30000,
        node != NodeType::RootNode && beta > 30000 - (ply + 1) ==> upper(node, beta, ply) == 30000 - (ply + 1),
{
}

/// A score that reaches beta is a lower bound, one that does not pass alpha an upper bound, and
/// one between them exact.
pub proof fn law_a_score_inside_its_window_is_exact(x: int, alpha: int, beta: int)
    requires
        alpha < beta,
    ensures
        x >= beta <==> bound_of(x, alpha, beta) == Bound::Lower,
        x <= alpha <==> bound_of(x, alpha, beta) == Bound::Upper,
        alpha < x < beta <==> bound_of(x, alpha, beta) == Bound::Exact,
        // Stored and asked for again with the same window, it settles the node.
        tt::settles(bound_of(x, alpha, beta), x, alpha, beta),
{
}

/// The table's score stands in for the evaluation as far as its bound goes, and never where it
/// tells of a mate.
pub proof fn law_the_table_corrects_the_evaluation(ctx: NodeCtx)
    ensures
        ctx.tt.score >= 29754 || ctx.tt.score <= -29754 ==> ctx.lead() == ctx.static_eval,
        -29754 < ctx.tt.score < 29754 && ctx.tt.bound == Bound::Exact ==> ctx.lead() == ctx.tt.score,
        -29754 < ctx.tt.score < 29754 && ctx.tt.bound == Bound::Lower ==> ctx.lead() >= ctx.tt.score && ctx.lead()
            >= ctx.static_eval && (ctx.lead() == ctx.tt.score || ctx.lead() == ctx.static_eval),
        -29754 < ctx.tt.score < 29754 && ctx.tt.bound == Bound::Upper ==> ctx.lead() <= ctx.tt.score && ctx.lead()
            <= ctx.static_eval && (ctx.lead() == ctx.tt.score || ctx.lead() == ctx.static_eval),
        ctx.tt.bound == Bound::Empty ==> ctx.lead() == ctx.static_eval,
{
}

/// An evaluation is only corrected by a node that is off checks, whose best move is a quiet one,
/// and whose score, as far as its bound goes, differs from the evaluation.
pub proof fn law_what_corrects_an_evaluation(ctx: NodeCtx, res: MoveResult, bound: Bound)
    ensures
        ctx.in_check ==> !tells(ctx, res, bound),
        res.best_move.captures() || res.best_move.promotes() || res.best_move.0 == 0 ==> !tells(ctx, res, bound),
        res.best_eval >= 29754 || res.best_eval <= -29754 ==> !tells(ctx, res, bound),
        bound == Bound::Lower && res.best_eval <= ctx.static_eval ==> !tells(ctx, res, bound),
        bound == Bound::Upper && res.best_eval >= ctx.static_eval ==> !tells(ctx, res, bound),
        !ctx.in_check && res.best_move.0 != 0 && !res.best_move.captures() && !res.best_move.promotes() && -29754
            < res.best_eval < 29754 && bound == Bound::Exact ==> tells(ctx, res, bound),
        !ctx.in_check && res.best_move.0 != 0 && !res.best_move.captures() && !res.best_move.promotes() && -29754
            < res.best_eval < 29754 && bound == Bound::Lower && res.best_eval > ctx.static_eval ==> tells(ctx, res, bound),
        !ctx.in_check && res.best_move.0 != 0 && !res.best_move.captures() && !res.best_move.promotes() && -29754
            < res.best_eval < 29754 && bound == Bound::Upper && res.best_eval < ctx.static_eval ==> tells(ctx, res, bound),
{
}

/// The table's word is taken by a scout alone, with no move set aside, from a search at least as
/// deep, and where its bound settles the window.
pub proof fn law_who_takes_the_tables_word(
    t: TranspositionTable,
    p: Position,
    node: NodeType,
    depth: int,
    alpha: int,
    beta: int,
    ply: int,
    excluded: Move,
)
    ensures
        node != NodeType::NonPvNode || excluded.0 != 0 ==> !table_cuts(t, p, node, depth, alpha, beta, ply, excluded),
        table_cuts(t, p, node, depth, alpha, beta, ply, excluded) ==> table_cuts(t, p, node, depth - 1, alpha, beta, ply, excluded),
        told(t, p, ply).depth < depth ==> !table_cuts(t, p, node, depth, alpha, beta, ply, excluded),
        told(t, p, ply).bound == Bound::Exact && told(t, p, ply).depth >= depth && node == NodeType::NonPvNode && excluded.0 == 0
            ==> table_cuts(t, p, node, depth, alpha, beta, ply, excluded),
{
    reveal(table_cuts);
}

/// The table is believed where its move can be played or where it names none, and counts as
/// silent otherwise.
pub proof fn law_the_table_is_believed_where_its_move_can_be_played(t: TranspositionTable, p: Position, ply: int)
    ensures
        told(t, p, ply).raw_mv.0 != 0 ==> legal::pseudo_legal(p, told(t, p, ply).raw_mv),
        t.known(p.hash, ply).raw_mv.0 == 0 ==> told(t, p, ply) == t.known(p.hash, ply),
        legal::pseudo_legal(p, t.known(p.hash, ply).raw_mv) ==> told(t, p, ply) == t.known(p.hash, ply),
        t.known(p.hash, ply).raw_mv.0 != 0 && !legal::pseudo_legal(p, t.known(p.hash, ply).raw_mv) ==> told(t, p, ply).bound
            == Bound::Empty,
{
    reveal(told);
}

/// The root is drawn by rule alone, and a node below it by repetition too.
pub proof fn law_a_root_is_not_drawn_by_repetition(p: Position, trail: Seq<u64>, ply: int)
    ensures
        ended(p, trail, 0) <==> search::drawn(p),
        search::drawn(p) ==> ended(p, trail, ply),
        ply > 0 && search::repeated(trail, p.halfmove_clock as int, p.hash) ==> ended(p, trail, ply),
        !search::drawn(p) && !search::repeated(trail, p.halfmove_clock as int, p.hash) ==> !ended(p, trail, ply),
{
}

/// A node is searched where it has depth left, room below it, an open window and no other answer.
pub proof fn law_what_keeps_a_node_from_being_searched(
    w: Worker,
    s: Searcher,
    node: NodeType,
    depth: int,
    alpha: int,
    beta: int,
    ply: int,
    excluded: Move,
)
    ensures
        depth <= 0 || ply >= MAX_PLY ==> !passed_door(w, s, node, depth, alpha, beta, ply, excluded),
        ended(w.pos, s.zobrist_trail@, ply) ==> !passed_door(w, s, node, depth, alpha, beta, ply, excluded),
        lower(node, alpha, ply) >= upper(node, beta, ply) ==> !passed_door(w, s, node, depth, alpha, beta, ply, excluded),
        node != NodeType::NonPvNode && depth > 0 && ply < MAX_PLY && !ended(w.pos, s.zobrist_trail@, ply) && lower(
            node,
            alpha,
            ply,
        ) < upper(node, beta, ply) ==> passed_door(w, s, node, depth, alpha, beta, ply, excluded),
{
    reveal(table_cuts);
}

} // verus!
