//! Thread results and the vote.

use soul::chess::defs::{mate_in, INF};
use soul::chess::moves::Move;
use soul::protocols::smp::{vote, winner, ThreadResult};

fn slots(picks: &[(u16, i32, i32)]) -> Vec<ThreadResult> {
    picks
        .iter()
        .map(|&(mv, score, depth)| ThreadResult::unpack(ThreadResult { mv: Move::from_u16(mv), score, depth }.pack()))
        .collect()
}

#[test]
fn a_packed_result_survives_the_round_trip() {
    for score in [-INF, -29_999, -1, 0, 1, 29_999, INF] {
        let sent = ThreadResult { mv: Move::from_u16(0x1234), score, depth: 246 };
        let back = ThreadResult::unpack(sent.pack());
        assert_eq!((back.mv.inner(), back.score, back.depth), (0x1234, score, 246));
    }
}

#[test]
fn depth_alone_does_not_outvote_a_better_score() {
    let winner = vote(&slots(&[(0xAAAA, 100, 12), (0xBBBB, -50, 10), (0xBBBB, -50, 10), (0xBBBB, -50, 10)]));
    assert_eq!(winner, 0, "three shallow threads outvoted a deeper, far better score");
}

#[test]
fn agreement_at_a_comparable_score_carries_the_pool() {
    let winner = vote(&slots(&[(0xAAAA, 20, 12), (0xBBBB, 18, 12), (0xBBBB, 18, 12), (0xBBBB, 18, 12)]));
    assert_eq!(winner, 1, "a move three threads agree on at nearly the same score lost the tally");
}

#[test]
fn a_proven_mate_beats_the_tally() {
    let winner = vote(&slots(&[(0xAAAA, 300, 20), (0xBBBB, mate_in(5), 9)]));
    assert_eq!(winner, 1, "a proven mate lost to a large eval");
}

#[test]
fn a_proven_mate_only_yields_to_a_faster_one() {
    let kept = vote(&slots(&[(0xAAAA, mate_in(5), 20), (0xBBBB, mate_in(9), 20), (0xBBBB, mate_in(9), 20)]));
    assert_eq!(kept, 0, "a slower mate displaced a faster one");

    let taken = vote(&slots(&[(0xAAAA, mate_in(9), 20), (0xBBBB, mate_in(3), 10)]));
    assert_eq!(taken, 1, "a faster mate failed to displace a slower one");
}

#[test]
fn a_thread_that_never_finished_a_depth_never_wins() {
    let winner = vote(&slots(&[(0xAAAA, 5, 11), (0xBBBB, -INF, 0), (0xBBBB, -INF, 0), (0xBBBB, -INF, 0)]));
    assert_eq!(winner, 0, "threads with no result won the vote");
}

#[test]
fn a_helper_carries_the_pool_when_main_never_finished_a_depth() {
    let winner = vote(&slots(&[(0x0000, -INF, 0), (0xBBBB, 12, 14)]));
    assert_eq!(winner, 1, "main published nothing and still won");
}

#[test]
fn a_thread_naming_mains_own_move_never_takes_the_win() {
    let winner = vote(&slots(&[(0xAAAA, 5, 12), (0xAAAA, 90, 20), (0xAAAA, 90, 20)]));
    assert_eq!(winner, 0, "a helper won the tally without changing the move");
}

#[test]
fn every_thread_silent_keeps_main() {
    assert_eq!(vote(&slots(&[(0x0000, -INF, 0), (0x0000, -INF, 0)])), 0);
}

#[test]
fn a_fixed_depth_or_a_mate_search_is_not_voted_on() {
    let results = slots(&[(0xAAAA, 300, 20), (0xBBBB, mate_in(5), 9)]);
    assert_eq!(winner(12, None, &results), 0);
    assert_eq!(winner(0, Some(3), &results), 0);
    assert_eq!(winner(0, None, &results), 1);
}
