//! Limits of the search and the meaning of scores.

use vstd::prelude::*;

use crate::chess::types::Color;

verus! {

/// The deepest ply a search reaches.
pub const MAX_PLY: usize = 246;

/// The deepest iteration a search starts.
pub const MAX_DEPTH: i32 = 246;

/// Beyond every score.
pub const INF: i32 = 31000;

/// The score of a king already mated, seen from the winner.
pub const MATE: i32 = 30000;

/// Scores from here on announce a mate.
pub const MATE_BOUND: i32 = 29754;

/// No score at all: above every score and every bound.
pub const SCORE_NONE: i32 = 32000;

/// The game phase with all men on the board.
pub const TOTAL_PHASE: i32 = 24;

/// The score of mating in `ply` plies.
pub fn mate_in(ply: usize) -> (s: i32)
    requires
        ply <= MAX_PLY + 1,
    ensures
        s == MATE - ply,
{
    MATE - ply as i32
}

/// The score of being mated in `ply` plies.
pub fn mated_in(ply: usize) -> (s: i32)
    requires
        ply <= MAX_PLY + 1,
    ensures
        s == ply - MATE,
{
    ply as i32 - MATE
}

/// Whether a score announces a mate we give.
pub open spec fn wins(score: int) -> bool {
    score >= MATE_BOUND
}

/// Whether a score announces a mate we suffer.
pub open spec fn loses(score: int) -> bool {
    score <= -MATE_BOUND
}

pub fn is_win(score: i32) -> (r: bool)
    ensures
        r == wins(score as int),
{
    score >= MATE_BOUND
}

pub fn is_loss(score: i32) -> (r: bool)
    ensures
        r == loses(score as int),
{
    score <= -MATE_BOUND
}

pub fn is_mate(score: i32) -> (r: bool)
    ensures
        r == (wins(score as int) || loses(score as int)),
{
    score >= MATE_BOUND || score <= -MATE_BOUND
}

/// A draw, a hair off zero one way or the other so that repetitions are told apart.
pub fn draw_score(nodes: u64) -> (s: i32)
    ensures
        s == (if nodes % 4 >= 2 {
            1int
        } else {
            -1
        }),
{
    if nodes % 4 >= 2 {
        1
    } else {
        -1
    }
}

/// A score as the table keeps it: mates are counted from the node, not from the root.
pub open spec fn to_table(score: int, ply: int) -> int {
    if wins(score) {
        score + ply
    } else if loses(score) {
        score - ply
    } else {
        score
    }
}

/// A score as the search uses it: mates are counted from the root.
pub open spec fn from_table(score: int, ply: int) -> int {
    if wins(score) {
        score - ply
    } else if loses(score) {
        score + ply
    } else {
        score
    }
}

pub fn score_to_tt(score: i32, ply: usize) -> (s: i32)
    requires
        ply <= MAX_PLY + 1,
        -SCORE_NONE <= score <= SCORE_NONE,
    ensures
        s == to_table(score as int, ply as int),
{
    if score >= MATE_BOUND {
        score + ply as i32
    } else if score <= -MATE_BOUND {
        score - ply as i32
    } else {
        score
    }
}

pub fn score_from_tt(score: i32, ply: usize) -> (s: i32)
    requires
        ply <= MAX_PLY + 1,
        -32768 <= score <= 32767,
    ensures
        s == from_table(score as int, ply as int),
{
    if score >= MATE_BOUND {
        score - ply as i32
    } else if score <= -MATE_BOUND {
        score + ply as i32
    } else {
        score
    }
}

/// What the table keeps of a score comes back as that score at the same ply.
pub proof fn law_table_scores_come_back(score: int, ply: int)
    requires
        ply >= 0,
    ensures
        from_table(to_table(score, ply), ply) == score,
{
}

/// How a game ends.
#[derive(Clone, Copy, Debug, PartialEq, Eq, Structural)]
pub enum GameOutcome {
    WhiteWin,
    BlackWin,
    Draw,
}

impl GameOutcome {
    /// The winner by a score seen from the side to move.
    pub open spec fn by_score(score: int, stm: Color) -> GameOutcome {
        if (score > 0) == (stm == Color::White) {
            GameOutcome::WhiteWin
        } else {
            GameOutcome::BlackWin
        }
    }

    /// The winner by a score seen from the side to move.
    pub fn from_stm_score(score: i32, stm: Color) -> (o: GameOutcome)
        ensures
            o == GameOutcome::by_score(score as int, stm),
    {
        if (score > 0) == (stm == Color::White) {
            GameOutcome::WhiteWin
        } else {
            GameOutcome::BlackWin
        }
    }
}

/// A lead this large, held this long, wins.
pub const ADJ_WIN_SCORE: i32 = 1000;

pub const ADJ_WIN_PLIES: usize = 8;

/// A score this small, held this long from this ply on, draws.
pub const ADJ_DRAW_SCORE: i32 = 10;

pub const ADJ_DRAW_PLIES: usize = 16;

pub const ADJ_DRAW_START_PLY: usize = 80;

/// A lead this large wins at once.
pub const ADJ_RESIGN_SCORE: i32 = 3000;

/// A mate within the reach of the search wins or loses by its score, and no other score does: the
/// sooner the mate, the higher the score.
pub proof fn law_mates_are_told_by_their_scores(plies: int, score: int)
    requires
        0 <= plies <= 246,
        -29754 < score < 29754,
    ensures
        wins(30000 - plies) && !loses(30000 - plies),
        loses(plies - 30000) && !wins(plies - 30000),
        !wins(score) && !loses(score),
{
}

/// The table counts a mate from the node: a mate `n` plies below the node is kept as such, however
/// deep the node lies, and comes back counted from wherever it is read.
pub proof fn law_the_table_counts_mates_from_the_node(n: int, ply: int, other: int, score: int)
    requires
        n >= 0,
        ply >= 0,
        other >= 0,
        n + ply <= 246,
        n + other <= 246,
        -29754 < score < 29754,
    ensures
        to_table(30000 - (ply + n), ply) == 30000 - n,
        to_table((ply + n) - 30000, ply) == n - 30000,
        from_table(30000 - n, other) == 30000 - (other + n),
        from_table(n - 30000, other) == (other + n) - 30000,
        to_table(score, ply) == score,
        from_table(score, ply) == score,
{
}

/// The side to move wins with a positive score and loses with any other.
pub proof fn law_a_positive_score_wins_for_the_side_to_move(score: int)
    ensures
        score > 0 ==> GameOutcome::by_score(score, Color::White) == GameOutcome::WhiteWin && GameOutcome::by_score(
            score,
            Color::Black,
        ) == GameOutcome::BlackWin,
        score < 0 ==> GameOutcome::by_score(score, Color::White) == GameOutcome::BlackWin && GameOutcome::by_score(
            score,
            Color::Black,
        ) == GameOutcome::WhiteWin,
{
}

} // verus!
