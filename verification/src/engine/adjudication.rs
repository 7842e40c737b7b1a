//! Score-based game adjudication for self-play and automated testing.
//!
//! Scores are relative to the side to move, so a lead that lasts alternates in sign. Two
//! equal signs in a row mean that the lead has changed hands, and the win count starts
//! over.

use vstd::prelude::*;

use crate::chess::defs::{
    GameOutcome, ADJ_DRAW_PLIES, ADJ_DRAW_SCORE, ADJ_DRAW_START_PLY, ADJ_RESIGN_SCORE, ADJ_WIN_PLIES, ADJ_WIN_SCORE,
};
use crate::chess::types::Color;

verus! {

/// The two counts after a ply with this score.
pub open spec fn counts_after(score: int, last_score: int, wins: int, draws: int, ply: int) -> (int, int) {
    let size = vstd::math::abs(score);
    if size >= ADJ_RESIGN_SCORE {
        (wins, draws)
    } else if size >= ADJ_WIN_SCORE {
        // A first lead has nothing to be compared with.
        let w = if (score > 0) == (last_score > 0) && wins > 0 {
            0
        } else {
            wins + 1
        };
        (
            w,
            if w >= ADJ_WIN_PLIES {
                draws
            } else {
                0
            },
        )
    } else if size < ADJ_DRAW_SCORE && ply >= ADJ_DRAW_START_PLY {
        (
            if draws + 1 >= ADJ_DRAW_PLIES {
                wins
            } else {
                0
            },
            draws + 1,
        )
    } else {
        (0, 0)
    }
}

/// The outcome called on a ply with this score, the counts after it given.
pub open spec fn outcome(score: int, wins: int, draws: int, stm: Color, ply: int) -> Option<GameOutcome> {
    let size = vstd::math::abs(score);
    if size >= ADJ_RESIGN_SCORE {
        Some(GameOutcome::by_score(score, stm))
    } else if size >= ADJ_WIN_SCORE && wins >= ADJ_WIN_PLIES {
        Some(GameOutcome::by_score(score, stm))
    } else if size < ADJ_DRAW_SCORE && ply >= ADJ_DRAW_START_PLY && draws >= ADJ_DRAW_PLIES {
        Some(GameOutcome::Draw)
    } else {
        None
    }
}

/// Updates the counters and returns an outcome once one has held long enough.
pub fn check_adjudication(
    score: i32,
    last_score: i32,
    win_adj_counter: &mut usize,
    draw_adj_counter: &mut usize,
    stm: Color,
    ply: usize,
) -> (r: Option<GameOutcome>)
    requires
        score > i32::MIN,
        *old(win_adj_counter) < usize::MAX,
        *old(draw_adj_counter) < usize::MAX,
    ensures
        (*final(win_adj_counter) as int, *final(draw_adj_counter) as int) == counts_after(
            score as int,
            last_score as int,
            *old(win_adj_counter) as int,
            *old(draw_adj_counter) as int,
            ply as int,
        ),
        r == outcome(
            score as int,
            *final(win_adj_counter) as int,
            *final(draw_adj_counter) as int,
            stm,
            ply as int,
        ),
{
    let abs_score: i32 = if score < 0 {
        -score
    } else {
        score
    };
    if abs_score >= ADJ_RESIGN_SCORE {
        return Some(GameOutcome::from_stm_score(score, stm));
    }
    if abs_score >= ADJ_WIN_SCORE {
        if (score > 0) == (last_score > 0) && *win_adj_counter > 0 {
            *win_adj_counter = 0;
        } else {
            *win_adj_counter = *win_adj_counter + 1;
        }
        if *win_adj_counter >= ADJ_WIN_PLIES {
            return Some(GameOutcome::from_stm_score(score, stm));
        }
        *draw_adj_counter = 0;
    } else if abs_score < ADJ_DRAW_SCORE && ply >= ADJ_DRAW_START_PLY {
        *draw_adj_counter = *draw_adj_counter + 1;
        if *draw_adj_counter >= ADJ_DRAW_PLIES {
            return Some(GameOutcome::Draw);
        }
        *win_adj_counter = 0;
    } else {
        *win_adj_counter = 0;
        *draw_adj_counter = 0;
    }
    None
}

/// A lead that has changed hands is not counted on: no game is called won on that ply
/// unless the lead is one that wins at once.
pub proof fn law_a_lead_that_changed_hands_wins_nothing(
    score: int,
    last_score: int,
    wins: int,
    draws: int,
    stm: Color,
    ply: int,
)
    requires
        wins > 0,
        (score > 0) == (last_score > 0),
        vstd::math::abs(score) < ADJ_RESIGN_SCORE,
        vstd::math::abs(score) >= ADJ_WIN_SCORE,
    ensures
        counts_after(score, last_score, wins, draws, ply) == (0int, 0int),
        outcome(
            score,
            counts_after(score, last_score, wins, draws, ply).0,
            counts_after(score, last_score, wins, draws, ply).1,
            stm,
            ply,
        ) is None,
{
}

/// A lead that wins at once, and a lead held for eight plies, win for the side that has it: the
/// side to move where its score is positive, the other where it is negative.
pub proof fn law_the_side_ahead_wins(score: int, wins: int, draws: int, stm: Color, ply: int)
    ensures
        score >= 3000 || (score >= 1000 && wins >= 8) ==> outcome(score, wins, draws, stm, ply) == Some(
            if stm == Color::White {
                GameOutcome::WhiteWin
            } else {
                GameOutcome::BlackWin
            },
        ),
        score <= -3000 || (score <= -1000 && wins >= 8) ==> outcome(score, wins, draws, stm, ply) == Some(
            if stm == Color::White {
                GameOutcome::BlackWin
            } else {
                GameOutcome::WhiteWin
            },
        ),
        -3000 < score < 3000 && wins < 8 ==> outcome(score, wins, draws, stm, ply) is None || outcome(
            score,
            wins,
            draws,
            stm,
            ply,
        ) == Some(GameOutcome::Draw),
        outcome(score, wins, draws, stm, ply) == Some(GameOutcome::Draw) <==> -10 < score < 10 && ply >= 80 && draws >= 16,
{
}

/// A lead that lasts is counted: its sign turns with each ply. So is a balance, from ply eighty
/// on. A score that is neither starts both counts over, and each starts the other over until it is
/// long enough.
pub proof fn law_leads_and_balances_are_counted(score: int, last_score: int, wins: int, draws: int, ply: int)
    requires
        wins >= 0,
        draws >= 0,
        -3000 < score < 3000,
    ensures
        (score >= 1000 && last_score <= 0) || (score <= -1000 && last_score > 0) || ((score >= 1000 || score <= -1000) && wins
            == 0) ==> counts_after(score, last_score, wins, draws, ply).0 == wins + 1,
        (score >= 1000 || score <= -1000) && counts_after(score, last_score, wins, draws, ply).0 < 8 ==> counts_after(
            score,
            last_score,
            wins,
            draws,
            ply,
        ).1 == 0,
        -10 < score < 10 && ply >= 80 ==> counts_after(score, last_score, wins, draws, ply).1 == draws + 1,
        -10 < score < 10 && ply >= 80 && draws < 15 ==> counts_after(score, last_score, wins, draws, ply).0 == 0,
        (10 <= score < 1000 || -1000 < score <= -10 || (-10 < score < 10 && ply < 80)) ==> counts_after(
            score,
            last_score,
            wins,
            draws,
            ply,
        ) == (0int, 0int),
{
}

} // verus!
