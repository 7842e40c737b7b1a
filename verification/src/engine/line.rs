//! Lines of play.

use vstd::prelude::*;

use crate::chess::defs::MAX_PLY;
use crate::chess::legal;
use crate::chess::moves::Move;
use crate::chess::position::Position;
use crate::chess::rules;

verus! {

/// Position `q` is what playing `mv` in `p` leads to.
#[verifier::opaque]
pub open spec fn followed(p: Position, mv: Move, q: Position) -> bool {
    &&& q.wf()
    &&& q.board() == rules::after(p.board(), p.stm, mv)
    &&& q.stm == p.stm.other()
    &&& q.castling_rooks == p.castling_rooks
    &&& q.castling_rights@ == legal::rights_after(p, mv)
    &&& q.en_passant == legal::ep_after(p, mv)
    &&& q.is_frc == p.is_frc
    &&& q.halfmove_clock == legal::clock_after(p, mv)
    &&& q.fullmove_number == legal::number_after(p)
}

/// The moves of `line` can be played one after the other from `p`.
#[verifier::opaque]
pub open spec fn playable(p: Position, line: Seq<Move>) -> bool
    decreases line.len(),
{
    line.len() == 0 || (legal::legal(p, line[0]) && exists|q: Position| #[trigger]
        followed(p, line[0], q) && playable(q, line.drop_first()))
}

/// Playing the moves of `line` one after the other from `p` leads to `q`.
#[verifier::opaque]
pub open spec fn reached(p: Position, line: Seq<Move>, q: Position) -> bool
    decreases line.len(),
{
    if line.len() == 0 {
        p == q
    } else {
        exists|r: Position| #[trigger]
            followed(r, line.last(), q) && legal::legal(r, line.last()) && reached(p, line.drop_last(), r)
    }
}

/// One move further.
pub proof fn lemma_reached_further(p: Position, line: Seq<Move>, r: Position, mv: Move, q: Position)
    requires
        reached(p, line, r),
        legal::legal(r, mv),
        followed(r, mv, q),
    ensures
        reached(p, line.push(mv), q),
{
    reveal_with_fuel(reached, 2);
    let l = line.push(mv);
    assert(l.drop_last() =~= line);
    assert(followed(r, l.last(), q));
}

/// Standing still.
pub proof fn lemma_reached_nothing(p: Position)
    ensures
        reached(p, Seq::empty(), p),
{
    reveal_with_fuel(reached, 1);
}

/// What can be played can be stopped early.
pub proof fn lemma_prefix(p: Position, line: Seq<Move>, n: int)
    requires
        playable(p, line),
        0 <= n <= line.len(),
    ensures
        playable(p, line.take(n)),
    decreases n,
{
    reveal_with_fuel(playable, 2);
    if n > 0 {
        let q = choose|q: Position| #[trigger] followed(p, line[0], q) && playable(q, line.drop_first());
        lemma_prefix(q, line.drop_first(), n - 1);
        assert(line.take(n).drop_first() =~= line.drop_first().take(n - 1));
        assert(line.take(n)[0] == line[0]);
        assert(followed(p, line.take(n)[0], q));
    }
}

/// A line that can be played from where a legal move leads can be played after that move.
pub proof fn lemma_prepend(p: Position, mv: Move, q: Position, tail: Seq<Move>)
    requires
        legal::legal(p, mv),
        followed(p, mv, q),
        playable(q, tail),
    ensures
        playable(p, seq![mv] + tail),
{
    reveal_with_fuel(playable, 2);
    let line = seq![mv] + tail;
    assert(line.drop_first() =~= tail);
    assert(line[0] == mv);
    assert(followed(p, line[0], q));
}

/// A line of play. When a new best move is found at a ply, the line is that move and then
/// the child's line, so the whole line comes together from the leaves to the root.
#[derive(Clone, Copy, Debug)]
pub struct Line {
    pub moves: [Move; 246],
    pub len: usize,
}

impl View for Line {
    type V = Seq<Move>;

    open spec fn view(&self) -> Seq<Move> {
        self.moves@.take(self.len as int)
    }
}

impl Line {
    pub open spec fn wf(self) -> bool {
        self.len <= MAX_PLY
    }

    /// An empty line.
    pub fn new() -> (l: Line)
        ensures
            l.wf(),
            l.len == 0,
            l@ == Seq::<Move>::empty(),
    {
        let l = Line { moves: [Move::null(); 246], len: 0 };
        assert(l@ =~= Seq::<Move>::empty());
        l
    }

    /// Makes this the line that plays `mv` and goes on with `tail`, as far as there is
    /// room.
    pub fn compose(&mut self, mv: Move, tail: &Line)
        requires
            tail.wf(),
        ensures
            final(self).wf(),
            final(self)@ == seq![mv] + tail@.take(if tail.len < MAX_PLY {
                tail.len as int
            } else {
                MAX_PLY - 1
            }),
            final(self).len >= 1,
            final(self).moves[0] == mv,
    {
        let n: usize = if tail.len < MAX_PLY {
            tail.len
        } else {
            MAX_PLY - 1
        };
        self.moves[0] = mv;
        let mut i: usize = 0;
        while i < n
            invariant
                i <= n,
                n <= 245,
                n <= tail.len <= 246,
                self.moves[0] == mv,
                forall|j: int| 0 <= j < i ==> self.moves[j + 1] == #[trigger] tail.moves[j],
            decreases n - i,
        {
            self.moves[i + 1] = tail.moves[i];
            i = i + 1;
        }
        self.len = 1 + n;
        assert(self@ =~= seq![mv] + tail@.take(n as int));
    }

    /// The move at place `idx`, if the line is that long.
    pub fn get(&self, idx: usize) -> (m: Option<Move>)
        requires
            self.wf(),
        ensures
            m == (if idx < self.len {
                Some(self@[idx as int])
            } else {
                None
            }),
    {
        if idx < self.len {
            Some(self.moves[idx])
        } else {
            None
        }
    }
}

impl Default for Line {
    fn default() -> (l: Line)
        ensures
            l.wf(),
            l.len == 0,
    {
        Line::new()
    }
}

/// A move put in front of a playable line makes a playable line.
pub proof fn law_composed_lines_are_playable(p: Position, mv: Move, q: Position, tail: Line, line: Line)
    requires
        legal::legal(p, mv),
        followed(p, mv, q),
        tail.wf(),
        playable(q, tail@),
        line@ == seq![mv] + tail@.take(if tail.len < MAX_PLY {
            tail.len as int
        } else {
            MAX_PLY - 1
        }),
    ensures
        playable(p, line@),
{
    let n = if tail.len < MAX_PLY {
        tail.len as int
    } else {
        MAX_PLY - 1
    };
    lemma_prefix(q, tail@, n);
    lemma_prepend(p, mv, q, tail@.take(n));
}

} // verus!
