//! The steps that the nodes of the search are made of: playing a move and taking it back,
//! asking for the next legal move, and writing to the ply stack.

use vstd::prelude::*;

use crate::chess::bitboard::Bitboard;
use crate::chess::legal;
use crate::chess::moves::Move;
use crate::chess::pins::Pins;
use crate::chess::position::{self, Position};
use crate::chess::psq::Accumulator;
use crate::chess::rules;
use crate::chess::state;
use crate::chess::types::{PieceType, Square};
use crate::engine::line::{self, Line};
use crate::engine::memory;
use crate::engine::movegen::is_legal;
use crate::engine::movepicker::{MovePicker, Plan};
use crate::engine::search::{self, Searcher, Stack, Worker, STACK_SIZE};

verus! {

/// No move is legal in `p`, `ex` aside.
#[verifier::opaque]
pub open spec fn stuck(p: Position, ex: Move) -> bool {
    forall|m: Move| #[trigger] search::may(p, m) ==> m == ex
}

/// The side to move is in check.
pub open spec fn checked(p: Position) -> bool {
    rules::attacked(p.board(), p.stm.other(), position::king_of(p.board(), p.stm))
}

/// The turn has passed to the other side, with all men where they were.
pub open spec fn turned(p: Position, q: Position) -> bool {
    &&& q.wf()
    &&& q.board() == p.board()
    &&& q.stm == p.stm.other()
    &&& q.castling_rights == p.castling_rights
    &&& q.castling_rooks == p.castling_rooks
    &&& q.en_passant is None
    &&& q.is_frc == p.is_frc
    &&& q.halfmove_clock == legal::ticked(p.halfmove_clock)
    &&& q.fullmove_number == p.fullmove_number
}

/// The men in `checkers` are those that give check in `p`.
#[verifier::opaque]
pub open spec fn checking(p: Position, checkers: Bitboard) -> bool {
    forall|a: int| #[trigger]
        checkers.has(a) <==> rules::hits(p.board(), p.stm.other(), a, position::king_of(p.board(), p.stm))
}

/// The pins are those of `p`.
#[verifier::opaque]
pub open spec fn pinning(p: Position, pins: Pins) -> bool {
    pins.of(p)
}

/// The move that the table names, if any, can be played in `p`, its king's safety aside.
#[verifier::opaque]
pub open spec fn names(p: Position, tt_move: Option<Move>) -> bool {
    tt_move matches Some(m) ==> m.canonical() && legal::pseudo_legal(p, m)
}

/// The picker, the pins and the checks belong to `p`.
#[verifier::opaque]
pub open spec fn picks(picker: MovePicker, p: Position, pins: Pins, checkers: Bitboard) -> bool {
    &&& picker.wf(p)
    &&& picker.plan.hash_move matches Some(m) ==> m.canonical()
    &&& pins.of(p)
    &&& checking(p, checkers)
}

/// Of the moves yielded so far none is legal, `ex` aside.
#[verifier::opaque]
pub open spec fn passed_over(picker: MovePicker, p: Position, ex: Move) -> bool {
    forall|m: Move| #[trigger] picker.yielded@.contains(m) && search::may(p, m) ==> m == ex
}

/// The legal moves yielded so far are in `done`.
#[verifier::opaque]
pub open spec fn behind(picker: MovePicker, p: Position, done: Set<Move>) -> bool {
    forall|m: Move| #[trigger] picker.yielded@.contains(m) && search::may(p, m) ==> done.contains(m)
}

/// The legal moves that the plan offers are in `done`.
#[verifier::opaque]
pub open spec fn exhausts(plan: Plan, p: Position, done: Set<Move>) -> bool {
    forall|m: Move| #[trigger] search::may(p, m) && plan.offered(p, m) ==> done.contains(m)
}

/// What is left to come of a picker has become less.
pub open spec fn nearer(a: MovePicker, b: MovePicker) -> bool {
    &&& b.pending() >= 0
    &&& b.stage.ahead() < a.stage.ahead() || (b.stage == a.stage && b.pending() < a.pending())
}

impl Searcher<'_> {
    /// Only the trail differs.
    pub open spec fn trailing(self, o: Searcher, trail: Seq<u64>) -> bool {
        &&& self.cfg == o.cfg
        &&& self.budget == o.budget
        &&& self.root_moves@ == o.root_moves@
        &&& self.root_pos == o.root_pos
        &&& self.prev_pv == o.prev_pv
        &&& self.prev_score == o.prev_score
        &&& self.nodes == o.nodes
        &&& self.sel_depth == o.sel_depth
        &&& self.iter_depth == o.iter_depth
        &&& self.pv_history@ == o.pv_history@
        &&& self.reports@ == o.reports@
        &&& self.tt == o.tt
        &&& self.zobrist_trail@ == trail
    }

    /// Counts a node.
    pub fn enter_node(&mut self)
        requires
            old(self).wf(),
        ensures
            final(self).wf(),
            final(self).calm(*old(self)),
            final(self).nodes == (if old(self).nodes == u64::MAX {
                u64::MAX as int
            } else {
                old(self).nodes + 1
            }),
            final(self).tt == old(self).tt,
            final(self).sel_depth == old(self).sel_depth,
    {
        proof {
            reveal(Searcher::kept);
        }
        self.nodes = self.nodes.saturating_add(1);
    }

    /// Notes how deep the search has gone.
    pub fn note_ply(&mut self, ply: usize)
        requires
            old(self).wf(),
            ply <= 246,
        ensures
            final(self).wf(),
            final(self).calm(*old(self)),
            final(self).nodes == old(self).nodes,
            final(self).tt == old(self).tt,
            final(self).sel_depth == (if ply > old(self).sel_depth {
                ply as int
            } else {
                old(self).sel_depth as int
            }),
    {
        proof {
            reveal(Searcher::kept);
        }
        if ply as i32 > self.sel_depth {
            self.sel_depth = ply as i32;
        }
    }

    /// Records the score of a root move.
    pub fn score_root(&mut self, i: usize, score: i32)
        requires
            old(self).wf(),
            i < old(self).root_moves@.len(),
            -search::REACH <= score <= search::REACH,
        ensures
            final(self).wf(),
            final(self).tt == old(self).tt,
            final(self).steady(*old(self)),
            final(self).nodes == old(self).nodes,
            final(self).root_moves@ == old(self).root_moves@.update(
                i as int,
                search::RootMove { score, ..old(self).root_moves@[i as int] },
            ),
    {
        proof {
            reveal(Searcher::kept);
        }
        self.root_moves[i].score = score;
    }

    /// Adds to the nodes of a root move.
    pub fn charge_root(&mut self, i: usize, nodes: u64)
        requires
            old(self).wf(),
            i < old(self).root_moves@.len(),
        ensures
            final(self).wf(),
            final(self).tt == old(self).tt,
            final(self).steady(*old(self)),
            final(self).nodes == old(self).nodes,
            final(self).root_moves@ == old(self).root_moves@.update(
                i as int,
                search::RootMove {
                    nodes: if old(self).root_moves@[i as int].nodes + nodes > u64::MAX {
                        u64::MAX
                    } else {
                        (old(self).root_moves@[i as int].nodes + nodes) as u64
                    },
                    ..old(self).root_moves@[i as int]
                },
            ),
    {
        proof {
            reveal(Searcher::kept);
        }
        self.root_moves[i].nodes = self.root_moves[i].nodes.saturating_add(nodes);
    }

    /// Gives a root move the line that plays `mv` and goes on with `tail`.
    pub fn line_root(&mut self, i: usize, mv: Move, tail: &Line, Ghost(q): Ghost<Position>)
        requires
            old(self).wf(),
            i < old(self).root_moves@.len(),
            tail.wf(),
            line::followed(old(self).root_pos, mv, q),
            search::may(old(self).root_pos, mv),
            line::playable(q, tail@),
        ensures
            final(self).wf(),
            final(self).tt == old(self).tt,
            final(self).steady(*old(self)),
            final(self).nodes == old(self).nodes,
            final(self).root_moves@ == old(self).root_moves@.update(
                i as int,
                search::RootMove { pv: final(self).root_moves@[i as int].pv, ..old(self).root_moves@[i as int] },
            ),
            final(self).root_moves@[i as int].pv.len >= 1,
            final(self).root_moves@[i as int].pv@[0] == mv,
            line::playable(old(self).root_pos, final(self).root_moves@[i as int].pv@),
    {
        proof {
            reveal(Searcher::kept);
        }
        self.root_moves[i].pv.compose(mv, tail);
        proof {
            reveal(search::may);
            line::law_composed_lines_are_playable(self.root_pos, mv, q, *tail, self.root_moves@[i as int].pv);
        }
    }
}

impl Worker {
    /// Beside the board, everything is as it was.
    pub open spec fn beside(self, o: Worker) -> bool {
        &&& self.stack == o.stack
        &&& self.history == o.history
        &&& self.pawn_cache == o.pawn_cache
        &&& self.is_nmp_verif == o.is_nmp_verif
    }

    /// Only the stack entry at `ply` differs.
    pub open spec fn apart(self, o: Worker, ply: int, e: Stack) -> bool {
        &&& self.wf()
        &&& self.pos == o.pos
        &&& self.accumulator == o.accumulator
        &&& self.history == o.history
        &&& self.pawn_cache == o.pawn_cache
        &&& self.is_nmp_verif == o.is_nmp_verif
        &&& self.stack@ == o.stack@.update(ply, e)
    }

    /// Only the stack entry at `ply` and the pawn cache differ, which has seen the board.
    pub open spec fn sketched(self, o: Worker, ply: int, e: Stack) -> bool {
        &&& self.wf()
        &&& self.pos == o.pos
        &&& self.accumulator == o.accumulator
        &&& self.history == o.history
        &&& memory::furnished(self.pawn_cache, o.pawn_cache, o.pos)
        &&& self.is_nmp_verif == o.is_nmp_verif
        &&& self.stack@ == o.stack@.update(ply, e)
    }

    /// Plays a legal move. What it hands back takes the move back.
    pub fn advance(&mut self, s: &mut Searcher, mv: Move) -> (undo: (Position, Accumulator))
        requires
            old(self).wf(),
            old(s).wf(),
            search::may(old(self).pos, mv),
        ensures
            final(self).wf(),
            final(self).beside(*old(self)),
            line::followed(old(self).pos, mv, final(self).pos),
            undo.0 == old(self).pos,
            undo.1 == old(self).accumulator,
            final(s).wf(),
            final(s).trailing(*old(s), old(s).zobrist_trail@.push(final(self).pos.hash)),
    {
        proof {
            reveal(Worker::kept);
            reveal(Searcher::kept);
            reveal(search::may);
            reveal(line::followed);
        }
        let saved = self.accumulator;
        let undo = self.pos.make_move(mv, &mut self.accumulator);
        s.zobrist_trail.push(self.pos.hash);
        (undo, saved)
    }

    /// Passes the turn.
    pub fn pass(&mut self, s: &mut Searcher) -> (undo: (Position, Accumulator))
        requires
            old(self).wf(),
            old(s).wf(),
            !checked(old(self).pos),
        ensures
            final(self).wf(),
            final(self).beside(*old(self)),
            turned(old(self).pos, final(self).pos),
            undo.0 == old(self).pos,
            undo.1 == old(self).accumulator,
            final(s).wf(),
            final(s).trailing(*old(s), old(s).zobrist_trail@.push(final(self).pos.hash)),
    {
        proof {
            reveal(Worker::kept);
            reveal(Searcher::kept);
        }
        let saved = self.accumulator;
        let undo = self.pos.make_null_move();
        s.zobrist_trail.push(self.pos.hash);
        (undo, saved)
    }

    /// Takes back what [`Worker::advance`] or [`Worker::pass`] did to the board of `w`.
    pub fn retreat(&mut self, s: &mut Searcher, undo: (Position, Accumulator), Ghost(w): Ghost<Worker>)
        requires
            old(self).wf(),
            old(s).wf(),
            w.wf(),
            undo.0 == w.pos,
            undo.1 == w.accumulator,
            old(s).zobrist_trail@.len() > 0,
        ensures
            final(self).wf(),
            final(self).beside(*old(self)),
            final(self).pos == undo.0,
            final(self).accumulator == undo.1,
            final(s).wf(),
            final(s).trailing(*old(s), old(s).zobrist_trail@.drop_last()),
    {
        proof {
            reveal(Worker::kept);
            reveal(Searcher::kept);
        }
        let _ = s.zobrist_trail.pop();
        self.pos.unmake_move(undo.0);
        self.accumulator = undo.1;
    }

    /// The pins on the board.
    pub fn pins(&self) -> (pins: Pins)
        requires
            self.wf(),
        ensures
            pinning(self.pos, pins),
    {
        proof {
            reveal(Worker::kept);
            reveal(pinning);
        }
        Pins::new(&self.pos)
    }

    /// Whether the side to move has a man other than its king and pawns.
    pub fn has_pieces(&self) -> (r: bool)
        requires
            self.wf(),
        ensures
            r <==> exists|x: int| #[trigger] state::piece_on(self.pos.board(), self.pos.stm, x),
    {
        proof {
            reveal(Worker::kept);
        }
        self.pos.has_non_pawn_material(self.pos.stm)
    }

    /// Whether the side to move is in check.
    pub fn in_check(&self) -> (r: bool)
        requires
            self.wf(),
        ensures
            r == checked(self.pos),
    {
        self.checks().1
    }

    /// The men that give check, and whether there are any.
    pub fn checks(&self) -> (r: (Bitboard, bool))
        requires
            self.wf(),
        ensures
            checking(self.pos, r.0),
            r.1 == checked(self.pos),
    {
        proof {
            reveal(Worker::kept);
            reveal(checking);
        }
        let checkers = self.pos.checkers();
        let any = checkers.is_not_empty();
        proof {
            let p = self.pos;
            let k = position::king_of(p.board(), p.stm);
            if rules::attacked(p.board(), p.stm.other(), k) {
                let a = choose|a: int| #[trigger] rules::hits(p.board(), p.stm.other(), a, k);
                assert(checkers.has(a));
            }
            if any {
                let a = choose|a: int| #[trigger] checkers.has(a);
                assert(rules::hits(p.board(), p.stm.other(), a, k));
            }
        }
        (checkers, any)
    }

    /// The next move of the picker that is legal.
    pub fn next_legal(&self, picker: &mut MovePicker, pins: &Pins, checkers: Bitboard) -> (r: Option<Move>)
        requires
            self.wf(),
            picks(*old(picker), self.pos, *pins, checkers),
        ensures
            picks(*final(picker), self.pos, *pins, checkers),
            final(picker).plan == old(picker).plan,
            match r {
                Some(m) => {
                    &&& search::may(self.pos, m)
                    &&& nearer(*old(picker), *final(picker))
                    &&& passed_over(*old(picker), self.pos, m) ==> passed_over(*final(picker), self.pos, m)
                    &&& old(picker).plan.is_hash(m) || old(picker).plan.offered(self.pos, m)
                    &&& forall|done: Set<Move>| #[trigger]
                        behind(*old(picker), self.pos, done) ==> behind(*final(picker), self.pos, done.insert(m))
                },
                None => {
                    &&& forall|ex: Move| #[trigger]
                        passed_over(*old(picker), self.pos, ex) && old(picker).plan.full() ==> stuck(self.pos, ex)
                    &&& forall|done: Set<Move>| #[trigger]
                        behind(*old(picker), self.pos, done) ==> exhausts(old(picker).plan, self.pos, done)
                },
            },
    {
        let stm = self.pos.stm;
        let opp = stm.opposite();
        let ksq = pins.king(stm);
        let pinned = pins.blockers(stm);
        let ghost a = *picker;
        let ghost mut before = *picker;
        loop
            invariant
                self.wf(),
                self.kept(),
                a == *old(picker),
                picks(*picker, self.pos, *pins, checkers),
                picker.plan == a.plan,
                stm == self.pos.stm,
                opp == stm.other(),
                ksq == pins.king_sq[stm.index()],
                pinned == pins.blocker_bb[stm.index()],
                *picker == a || nearer(a, *picker),
                forall|x: Move| #[trigger] picker.yielded@.contains(x) && search::may(self.pos, x) ==> a.yielded@.contains(x),
            decreases picker.stage.ahead(), picker.pending(),
        {
            proof {
                reveal(Worker::kept);
                reveal(picks);
                reveal(checking);
                reveal(search::may);
                before = *picker;
            }
            match picker.next(&self.pos, &self.history) {
                Some(m) => {
                    if is_legal(&self.pos, m, ksq, pinned, checkers, opp) {
                        proof {
                            reveal(passed_over);
                            reveal(behind);
                        }
                        return Some(m);
                    }
                },
                None => {
                    proof {
                        let p = self.pos;
                        assert forall|ex: Move| #[trigger] passed_over(a, p, ex) && a.plan.full() implies stuck(p, ex) by {
                            reveal(passed_over);
                            reveal(stuck);
                            assert forall|x: Move| #[trigger] search::may(p, x) implies x == ex by {
                                assert(before.plan.offered(p, x));
                                assert(before.yielded@.contains(x));
                                assert(picker.yielded@.contains(x));
                            }
                        }
                        assert forall|done: Set<Move>| #[trigger] behind(a, p, done) implies exhausts(a.plan, p, done) by {
                            reveal(behind);
                            reveal(exhausts);
                            assert forall|x: Move| #[trigger] search::may(p, x) && a.plan.offered(p, x) implies done.contains(x) by {
                                assert(before.yielded@.contains(x));
                                assert(picker.yielded@.contains(x));
                            }
                        }
                    }
                    return None;
                },
            }
        }
    }

    /// Forgets the line at `ply`.
    pub fn clear_line(&mut self, ply: usize)
        requires
            old(self).wf(),
            ply < STACK_SIZE,
        ensures
            final(self).apart(*old(self), ply as int, final(self).stack@[ply as int]),
            final(self).lined(ply as int),
            memory::marks(final(self).stack@) == memory::marks(old(self).stack@),
    {
        proof {
            reveal(Worker::kept);
            reveal_with_fuel(line::playable, 2);
        }
        self.stack[ply].pv.len = 0;
        proof {
            memory::lemma_marks_kept(old(self).stack@, ply as int, self.stack@[ply as int]);
        }
        assert(self.stack@[ply as int].pv@ =~= Seq::<Move>::empty());
    }

    /// Makes the line at `ply` play `mv` and go on with the line one ply further.
    pub fn raise_line(&mut self, ply: usize, mv: Move, tail: &Line, Ghost(q): Ghost<Position>)
        requires
            old(self).wf(),
            ply < STACK_SIZE,
            tail.wf(),
            line::followed(old(self).pos, mv, q),
            search::may(old(self).pos, mv),
            line::playable(q, tail@),
        ensures
            final(self).apart(*old(self), ply as int, final(self).stack@[ply as int]),
            final(self).lined(ply as int),
            final(self).stack@[ply as int].pv@ == seq![mv] + tail@.take(if tail.len < 246 {
                tail.len as int
            } else {
                245
            }),
            memory::marks(final(self).stack@) == memory::marks(old(self).stack@),
    {
        proof {
            reveal(Worker::kept);
        }
        self.stack[ply].pv.compose(mv, tail);
        proof {
            memory::lemma_marks_kept(old(self).stack@, ply as int, self.stack@[ply as int]);
            reveal(search::may);
            line::law_composed_lines_are_playable(self.pos, mv, q, *tail, self.stack@[ply as int].pv);
        }
    }

    /// The line at `ply`.
    pub fn line_at(&self, ply: usize) -> (l: Line)
        requires
            self.wf(),
            ply < STACK_SIZE,
        ensures
            l == self.stack@[ply as int].pv,
            l.wf(),
    {
        proof {
            reveal(Worker::kept);
        }
        self.stack[ply].pv
    }

    /// Notes the man that moves at `ply`, and where to.
    pub fn note_man(&mut self, ply: usize, pt: PieceType, to: Square)
        requires
            old(self).wf(),
            ply < STACK_SIZE,
            to.ok(),
        ensures
            final(self).apart(
                *old(self),
                ply as int,
                (Stack { moved_pt: pt, moved_to: to, ..old(self).stack@[ply as int] }),
            ),
    {
        proof {
            reveal(Worker::kept);
        }
        self.stack[ply].moved_pt = pt;
        self.stack[ply].moved_to = to;
        assert(self.stack@ =~= old(self).stack@.update(ply as int, self.stack@[ply as int]));
    }

    /// Notes that no man moves at `ply`.
    pub fn note_pass(&mut self, ply: usize)
        requires
            old(self).wf(),
            ply < STACK_SIZE,
        ensures
            final(self).apart(
                *old(self),
                ply as int,
                (Stack { moved_pt: PieceType::Empty, ..old(self).stack@[ply as int] }),
            ),
    {
        proof {
            reveal(Worker::kept);
        }
        self.stack[ply].moved_pt = PieceType::Empty;
    }

    /// Notes the static evaluation at `ply`.
    pub fn note_eval(&mut self, ply: usize, eval: i32)
        requires
            old(self).wf(),
            ply < STACK_SIZE,
        ensures
            final(self).apart(
                *old(self),
                ply as int,
                (Stack { static_eval: eval, ..old(self).stack@[ply as int] }),
            ),
    {
        proof {
            reveal(Worker::kept);
        }
        self.stack[ply].static_eval = eval;
    }

    /// Starts the count of cutoffs at `ply` anew.
    pub fn reset_cutoffs(&mut self, ply: usize)
        requires
            old(self).wf(),
            ply < STACK_SIZE,
        ensures
            final(self).apart(*old(self), ply as int, (Stack { cutoff_count: 0, ..old(self).stack@[ply as int] })),
            memory::marks(final(self).stack@) == memory::marks(old(self).stack@),
    {
        proof {
            reveal(Worker::kept);
        }
        self.stack[ply].cutoff_count = 0;
        proof {
            memory::lemma_marks_kept(old(self).stack@, ply as int, self.stack@[ply as int]);
        }
    }

    /// Counts a cutoff at `ply`.
    pub fn count_cutoff(&mut self, ply: usize)
        requires
            old(self).wf(),
            ply < STACK_SIZE,
        ensures
            final(self).apart(
                *old(self),
                ply as int,
                (Stack {
                    cutoff_count: if old(self).stack@[ply as int].cutoff_count == i32::MAX {
                        i32::MAX
                    } else {
                        (old(self).stack@[ply as int].cutoff_count + 1) as i32
                    },
                    ..old(self).stack@[ply as int]
                }),
            ),
            memory::marks(final(self).stack@) == memory::marks(old(self).stack@),
    {
        proof {
            reveal(Worker::kept);
        }
        let count: i32 = self.stack[ply].cutoff_count;
        if count < i32::MAX {
            self.stack[ply].cutoff_count = count + 1;
        }
        assert(self.stack@ =~= old(self).stack@.update(ply as int, self.stack@[ply as int]));
        proof {
            memory::lemma_marks_kept(old(self).stack@, ply as int, self.stack@[ply as int]);
        }
    }
}

/// A pass changes the turn: men and rights stay, the chance to take in passing is gone, and the
/// count of plies towards a draw goes on.
pub proof fn law_a_pass_changes_the_turn(p: Position, q: Position)
    requires
        turned(p, q),
        p.halfmove_clock < u32::MAX,
    ensures
        q.stm == p.stm.other(),
        q.board() == p.board(),
        q.castling_rights == p.castling_rights,
        q.en_passant is None,
        q.halfmove_clock == p.halfmove_clock + 1,
{
}

} // verus!
