//! Searches from start to end.

use std::sync::atomic::AtomicBool;
use std::sync::Arc;
use std::time::Instant;

use soul::chess::defs::{mate_in, mated_in, INF};
use soul::chess::fen::STARTPOS;
use soul::chess::moves::Move;
use soul::chess::position::Position;
use soul::chess::types::{Color, Square};
use soul::engine::config::{Limits, Protocol, SearchConfig};
use soul::engine::deepening::{depth_limit, Attempt, Prelude};
use soul::engine::eval::evaluate;
use soul::engine::history::History;
use soul::engine::movegen::gen_legal_moves;
use soul::engine::perft::perft;
use soul::engine::search::{NodeType, Searcher, Worker};
use soul::engine::search_params::{SearchParams, NAMES};
use soul::engine::tm::{clocked_budget, fixed_budget, with_overhead, Budget, Clock, Iteration};
use soul::engine::tt::{Bound, TranspositionTable};
use soul::protocols::notation::parse_uci_move;
use soul::protocols::smp::winner;

#[test]
fn params_reach_search() {
    let run = |params| {
        let board = Position::from_fen(STARTPOS);
        let limits = Limits { depth: 8, silent: true, protocol: Protocol::Uci, ..Default::default() };
        let cfg = SearchConfig::new(limits, Instant::now(), Arc::new(AtomicBool::new(false)), 0, params);
        let mut s = Searcher::new(&cfg, &board, &[board.hash], TranspositionTable::new(16));
        s.iterative_deepening(&mut History::new());
        s.nodes
    };

    let at = |name: &str| NAMES.iter().position(|n| *n == name).unwrap();
    let mut values = SearchParams::new().values;
    values[at("lmr_base")] = 0;
    values[at("lmr_divisor")] = 350;
    values[at("rfp_margin")] = 400;
    let tweaked = SearchParams { values };
    assert_ne!(run(SearchParams::new()), run(tweaked), "params didn't reach search");
}

#[test]
fn a_stop_before_the_first_iteration_still_leaves_a_line() {
    let board = Position::from_fen(STARTPOS);
    let limits = Limits { depth: 32, silent: true, protocol: Protocol::Uci, ..Default::default() };
    let cfg = SearchConfig::new(limits, Instant::now(), Arc::new(AtomicBool::new(true)), 0, SearchParams::new());
    let mut searcher = Searcher::new(&cfg, &board, &[board.hash], TranspositionTable::new(16));
    searcher.iterative_deepening(&mut History::new());
    assert!(searcher.prev_pv.len > 0, "the first iteration was abandoned");
    assert_eq!(searcher.best_move(), searcher.prev_pv.get(0), "the move played is not the one searched");
}

fn limited(limits: Limits) -> SearchConfig {
    SearchConfig::new(limits, Instant::now(), Arc::new(AtomicBool::new(false)), 0, SearchParams::new())
}

fn deepened<'c>(cfg: &'c SearchConfig, fen: &str) -> Searcher<'c> {
    let board = Position::from_fen(fen);
    let mut s = Searcher::new(cfg, &board, &[board.hash], TranspositionTable::new(1));
    s.iterative_deepening(&mut History::new());
    s
}

#[test]
fn a_mate_in_one_is_found_and_scored() {
    let cfg = limited(Limits { depth: 4, silent: true, ..Default::default() });
    let s = deepened(&cfg, "6k1/5ppp/8/8/8/8/8/R3K3 w Q - 0 1");
    let best = s.answer().unwrap();
    assert_eq!(best.to_uci(false), "a1a8");
    assert_eq!(s.prev_score, mate_in(1));
    assert_eq!(s.prev_pv.len, 1);
    let r = s.result();
    assert_eq!((r.mv, r.score, r.depth), (best, mate_in(1), 4));
}

#[test]
fn a_back_rank_mate_in_two_is_found() {
    let cfg = limited(Limits { mate: Some(2), silent: true, ..Default::default() });
    let s = deepened(&cfg, "2r3k1/5ppp/8/8/8/8/4R3/4R1K1 w - - 0 1");
    assert_eq!(s.answer().unwrap().to_uci(false), "e2e8");
    assert_eq!(s.prev_score, mate_in(3));
    assert_eq!(depth_limit(&cfg.limits), 4);
}

#[test]
fn a_root_without_moves_has_no_answer() {
    let cfg = limited(Limits { depth: 3, silent: true, ..Default::default() });
    let mut s = deepened(&cfg, "7k/5Q2/6K1/8/8/8/8/8 b - - 0 1");
    assert_eq!(s.prepare(), Prelude::NoMoves);
    assert!(s.answer().is_none() && s.best_move().is_none() && s.best_score().is_none());
    assert!(s.result().mv.is_null());
}

#[test]
fn only_wanted_moves_are_searched() {
    let board = Position::from_fen(STARTPOS);
    let mv = parse_uci_move(&board, "a2a3").unwrap();
    let cfg = limited(Limits { depth: 3, silent: true, searchmoves: vec![mv], ..Default::default() });
    let s = deepened(&cfg, STARTPOS);
    assert_eq!(s.root_moves.len(), 1);
    assert_eq!(s.answer(), Some(mv));

    let elsewhere = Position::from_fen("4k3/8/8/8/8/8/8/4K2R w K - 0 1");
    let mut s = Searcher::new(&cfg, &elsewhere, &[], TranspositionTable::new(1));
    assert_eq!(s.prepare(), Prelude::NoMatch);
}

#[test]
fn counting_moves_is_told_before_searching() {
    let cfg = limited(Limits { perft: Some(3), silent: true, ..Default::default() });
    let board = Position::from_fen(STARTPOS);
    let mut s = Searcher::new(&cfg, &board, &[], TranspositionTable::new(1));
    assert_eq!(s.prepare(), Prelude::Perft(3));
    assert_eq!([perft(&board, 0), perft(&board, 1), perft(&board, 2), perft(&board, 3)], [1, 20, 400, 8902]);
    let kiwipete = Position::from_fen("r3k2r/p1ppqpb1/bn2pnp1/3PN3/1p2P3/2N2Q1p/PPPBBPPP/R3K2R w KQkq - 0 1");
    assert_eq!([perft(&kiwipete, 1), perft(&kiwipete, 2), perft(&kiwipete, 3)], [48, 2039, 97862]);
}

#[test]
fn an_iteration_at_a_time_ranks_the_root() {
    let cfg = limited(Limits { depth: 5, silent: true, ..Default::default() });
    let board = Position::from_fen(STARTPOS);
    let mut s = Searcher::new(&cfg, &board, &[board.hash], TranspositionTable::new(1));
    assert_eq!(s.prepare(), Prelude::Ready);
    let mut d = s.start(History::new());
    let mut depths = Vec::new();
    loop {
        match s.deepen(&mut d) {
            Attempt::Completed(it) => {
                depths.push(it.depth);
                assert_eq!((it.root_moves, it.score), (20, s.prev_score));
                assert!(s.root_moves.windows(2).all(|w| w[0].score >= w[1].score));
                assert_eq!(s.prev_pv.get(0), s.best_move());
            },
            Attempt::Finished => break,
            Attempt::Aborted => panic!("nothing stops this search"),
        }
    }
    assert_eq!(depths, [1, 2, 3, 4, 5]);
    assert_eq!(s.pv_history.len(), 5);
}

#[test]
fn every_thread_has_a_legal_move_to_vote_for() {
    let board = Position::from_fen(STARTPOS);
    let legal: Vec<u16> = gen_legal_moves(&board).moves.iter().map(|m| m.inner()).collect();
    let mut results = Vec::new();
    for id in 0..4 {
        let mut cfg = limited(Limits { nodes: 20_000, silent: true, ..Default::default() });
        cfg.threads = 4;
        cfg.node_slots = SearchConfig::node_slots(4);
        cfg.thread_id = id;
        let s = deepened(&cfg, STARTPOS);
        let result = s.result();
        assert!(legal.contains(&result.mv.inner()), "thread {id} published a move that is not legal at the root");
        assert!(result.depth >= 1, "thread {id} published no completed depth");
        results.push(result);
    }
    assert!(winner(0, None, &results) < 4);
}

#[test]
fn a_spent_clock_ends_the_search_after_one_iteration() {
    let limits = Limits { wtime: 5000, btime: 5000, depth: 40, silent: true, ..Default::default() };
    let cfg = limited(limits);
    let board = Position::from_fen(STARTPOS);
    let mut s = Searcher::new(&cfg, &board, &[board.hash], TranspositionTable::new(1));
    s.set_budget(Budget { soft: Some(0), hard: Some(0) });
    s.iterative_deepening(&mut History::new());
    assert_eq!(s.iter_depth, 2);
    assert!(s.prev_pv.len > 0);
    s.reset(&cfg, &board, &[board.hash]);
    assert_eq!((s.nodes, s.prev_score, s.prev_pv.len), (0, -INF, 0));
}

#[test]
fn a_clock_is_shared_out() {
    let limits = Limits { wtime: 8000, winc: 80, btime: 100, movestogo: 4, ..Default::default() };
    let clock = Clock::for_stm(&limits, Color::White, 7);
    assert_eq!((clock.time, clock.inc, clock.movestogo, clock.game_ply), (8000, 80, 4, 7));
    assert!(!clock.is_unclocked());
    assert_eq!(clock.usable(10).time, 7950);
    assert_eq!(clock.cap_hard(7990), 8000);
    assert_eq!(clock.cap_hard(100), 180);
    assert!(fixed_budget(&limits, Color::White, 10).is_none());
    let fixed = Limits { movetime: 300, ..Default::default() };
    assert_eq!(fixed_budget(&fixed, Color::White, 10), Some(Budget { soft: Some(290), hard: Some(290) }));
    let free = Limits { infinite: true, wtime: 5, ..Default::default() };
    assert_eq!(fixed_budget(&free, Color::White, 10), Some(Budget::unbounded()));
    assert_eq!(clocked_budget(500, 300, 10), Budget { soft: Some(290), hard: Some(290) });
    assert_eq!(with_overhead(5, 10), 1);
}

#[test]
fn a_lone_effort_shortens_the_search() {
    let sp = SearchParams::new();
    let settled = Iteration {
        depth: 12,
        best_move_changed: false,
        root_moves: 4,
        best_nodes: 950,
        total_nodes: 1000,
        score: 0,
        prev_score: 0,
    };
    let scattered = Iteration { best_nodes: 10, ..settled };
    assert!(settled.effort_percent(&sp).unwrap() < scattered.effort_percent(&sp).unwrap());
    assert!(Iteration { root_moves: 1, ..settled }.effort_percent(&sp).is_none());
}

#[test]
fn a_quiet_position_is_worth_its_evaluation() {
    let cfg = limited(Limits { silent: true, ..Default::default() });
    let board = Position::from_fen("4k3/pp6/8/8/8/8/PPP5/4K3 w - - 0 1");
    let mut s = Searcher::new(&cfg, &board, &[board.hash], TranspositionTable::new(1));
    let mut w = Worker::new(&board, History::new());
    let x = w.qsearch(&mut s, NodeType::PvNode, -20_000, 20_000, 1, None, 0).unwrap();
    assert_eq!(x, evaluate(&board, &board.get_initial_accumulator()));
    let drawn = Position::from_fen("4k3/8/8/8/8/8/8/4K3 w - - 0 1");
    let mut w = Worker::new(&drawn, History::new());
    let x = w.negamax(&mut s, NodeType::PvNode, 3, -30_000, 30_000, 1, Move::null(), false).unwrap();
    assert_eq!(x.abs(), 1);
    let mated = Position::from_fen("R5k1/5ppp/8/8/8/8/8/4K3 b - - 0 1");
    let mut w = Worker::new(&mated, History::new());
    let x = w.negamax(&mut s, NodeType::PvNode, 3, -30_000, 30_000, 1, Move::null(), false).unwrap();
    assert_eq!(x, mated_in(1));
}

#[test]
fn with_its_only_move_set_aside_a_node_fails_low() {
    let board = Position::from_fen("7k/8/5K2/8/8/8/8/6R1 b - - 0 1");
    let cfg = limited(Limits { depth: 4, silent: true, ..Default::default() });
    let mut s = Searcher::new(&cfg, &board, &[board.hash], TranspositionTable::new(1));
    let mut w = Worker::new(&board, History::new());
    let only = Move::new(Square(63), Square(55), Move::QUIET);
    assert_eq!(gen_legal_moves(&board).len(), 1);
    assert!(matches!(w.negamax(&mut s, NodeType::NonPvNode, 1, 50, 51, 1, only, false), Ok(50)));
    assert!(matches!(w.negamax(&mut s, NodeType::NonPvNode, 6, -300, -299, 1, only, false), Ok(-300)));
}

#[test]
fn captures_lift_a_score_above_standing_pat() {
    let board = Position::from_fen("4k3/8/8/3q4/4P3/8/8/4K3 w - - 0 1");
    let cfg = limited(Limits { depth: 4, silent: true, ..Default::default() });
    let mut s = Searcher::new(&cfg, &board, &[board.hash], TranspositionTable::new(1));
    let mut w = Worker::new(&board, History::new());
    let pat = w.evaluate();
    let Ok(score) = w.qsearch(&mut s, NodeType::PvNode, -3000, 3000, 1, None, 0) else { panic!("aborted") };
    assert!(score > pat + 500, "{score} is no better than {pat}");
    // What the capture brings is the negated score of the node behind it.
    let take = parse_uci_move(&board, "e4d5").unwrap();
    let mut after = board;
    let mut acc = after.get_initial_accumulator();
    after.make_move(take, &mut acc);
    let mut t = Searcher::new(&cfg, &after, &[after.hash], TranspositionTable::new(1));
    let mut v = Worker::new(&after, History::new());
    let Ok(behind) = v.qsearch(&mut t, NodeType::PvNode, -3000, 3000, 2, Some(take.to()), 1) else { panic!("aborted") };
    assert_eq!(score, -behind);
    // The result is in the table.
    let data = s.tt.probe(board.hash, 1);
    assert_eq!((data.bound, data.score, data.eval), (Bound::Exact, score, pat));
}

#[test]
fn only_the_first_iteration_is_deaf_to_the_signals() {
    let cfg = limited(Limits { depth: 3, nodes: 1000, silent: true, ..Default::default() });
    let board = Position::from_fen(STARTPOS);
    let fresh = Searcher::new(&cfg, &board, &[board.hash], TranspositionTable::new(1));
    assert!(!fresh.heeds(true, 0, 0));
    let s = deepened(&cfg, STARTPOS);
    assert!(s.heeds(true, 0, 0) && s.heeds(false, 0, 1000) && !s.heeds(false, 0, 999));
}

#[test]
fn a_searched_root_is_in_the_table() {
    let cfg = limited(Limits { depth: 4, silent: true, ..Default::default() });
    let s = deepened(&cfg, STARTPOS);
    let board = Position::from_fen(STARTPOS);
    let data = s.tt.probe(board.hash, 0);
    assert_eq!((data.bound, data.score, data.depth), (Bound::Exact, s.prev_score, 4));
    assert_eq!(Some(data.raw_mv), s.best_move());
}

#[test]
fn a_completed_search_reaches_its_depth_and_leads_with_its_line() {
    let cfg = limited(Limits { depth: 6, silent: true, ..Default::default() });
    let s = deepened(&cfg, STARTPOS);
    let last = s.pv_history[s.pv_history.len() - 1];
    assert_eq!(last.depth, 6);
    assert_eq!(last.score, s.prev_score);
    assert_eq!(s.best_move(), s.prev_pv.get(0));
    assert_eq!(s.best_score(), Some(s.prev_score));
}

#[test]
fn a_search_cut_short_keeps_the_order_of_the_last_iteration() {
    let fen = "r1bqkbnr/pppp1ppp/2n5/4p3/2B1P3/5Q2/PPPP1PPP/RNB1K1NR w KQkq - 0 1";
    for nodes in [300, 900, 2500, 7000, 20000] {
        let cfg = limited(Limits { nodes, silent: true, ..Default::default() });
        let s = deepened(&cfg, fen);
        assert_eq!(s.best_move(), s.prev_pv.get(0));
    }
}

#[test]
fn a_search_learns_under_its_own_caps() {
    let at = |name: &str| NAMES.iter().position(|n| *n == name).unwrap();
    let mut values = SearchParams::new().values;
    values[at("quiet_hist_cap")] += 100;
    let params = SearchParams { values };
    let start = Position::from_fen(STARTPOS);
    let run = |limits: Limits, board: &Position| {
        let cfg = SearchConfig::new(limits, Instant::now(), Arc::new(AtomicBool::new(false)), 0, params);
        let mut s = Searcher::new(&cfg, board, &[board.hash], TranspositionTable::new(1));
        let mut h = History::new();
        h.table[5] = 77;
        s.iterative_deepening(&mut h);
        h
    };

    // Neither a count of positions nor a game that is over teaches anything.
    let mated = Position::from_fen("R5k1/5ppp/8/8/8/8/8/6K1 b - - 0 1");
    let counted = run(Limits { perft: Some(1), silent: true, ..Default::default() }, &start);
    let over = run(Limits { depth: 3, silent: true, ..Default::default() }, &mated);
    for h in [&counted, &over] {
        assert_eq!(h.caps.quiet, 8365);
        assert_eq!(h.table[5], 77);
        assert_eq!(h.table.iter().filter(|x| **x != 0).count(), 1);
        assert!(h.butterfly.iter().all(|x| *x == 0));
    }

    // What was known before a search is built on, not forgotten.
    let searched = run(Limits { depth: 6, silent: true, ..Default::default() }, &start);
    assert_eq!(searched.caps.quiet, 8365);
    assert_eq!(searched.table[5], 77);
    assert!(searched.butterfly.iter().any(|x| *x != 0));
}

#[test]
fn reductions_grow_from_their_base() {
    let cfg = limited(Limits::default());
    assert_eq!((cfg.lmr(1, 40), cfg.lmr(40, 1), cfg.lmr(1, 1)), (890, 890, 890));
    assert_eq!((cfg.lmr(2, 2), cfg.lmr(8, 10)), (1119, 3170));
    for d in 1..=60 {
        for m in 1..=60 {
            assert_eq!(cfg.lmr(d, m), cfg.lmr(m as i32, d as usize));
            assert!(cfg.lmr(d, m) <= cfg.lmr(d + 1, m) && cfg.lmr(d, m) <= cfg.lmr(d, m + 1));
        }
    }
}

#[test]
fn a_late_quiet_move_that_surprises_is_searched_in_full() {
    // Both rooks can shut the king in: one of the quiet moves that are scouted at reduced depth.
    let cfg = limited(Limits { depth: 7, silent: true, ..Default::default() });
    let s = deepened(&cfg, "7k/8/8/8/8/8/R7/1R5K w - - 0 1");
    assert_eq!(s.prev_score, mate_in(3));
    let first = s.answer().unwrap();
    assert!(!first.is_capture() && !first.is_promotion());
}
