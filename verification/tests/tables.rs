//! What a search keeps: the transposition table, histories, lines and counts.

use soul::chess::bitboard::Bitboard;
use soul::chess::defs::{mate_in, GameOutcome, INF};
use soul::chess::fen::STARTPOS;
use soul::chess::moves::Move;
use soul::chess::position::Position;
use soul::chess::types::{Color, PieceType, Square};
use soul::engine::adjudication::check_adjudication;
use soul::engine::corrstats::{record_read, record_update, weights, CorrStats, Table};
use soul::engine::eval_params::{blocks, BLOCK_COUNT};
use soul::engine::history::{ContContext, CorrectionHistory, History, CORRECTION_LIMIT};
use soul::engine::line::Line;
use soul::engine::mvpstats::{record_cutoff, record_quiets, report, CutoffKind, PickerStats};
use soul::engine::search_params::SearchParams;
use soul::engine::see::see_ge;
use soul::engine::tt::{can_cutoff, clamp_to_bound, Bound, TranspositionTable, TtMove};
use soul::chess::pins::Pins;
use soul::hugepages::{ladder, round_up, trim, PageKind, GB, MB2};
use soul::protocols::notation::parse_uci_move;

#[test]
fn a_probe_finds_what_was_stored() {
    let pos = Position::from_fen(STARTPOS);
    let mv = parse_uci_move(&pos, "e2e4").unwrap();
    let mut t = TranspositionTable::new(1);
    let miss = t.probe(pos.hash, 0);
    assert_eq!((miss.bound, miss.depth), (Bound::Empty, 0));
    t.store(pos.hash, 0, 7, 123, mv, Bound::Exact, true, 45);
    let hit = t.probe(pos.hash, 0);
    assert_eq!((hit.score, hit.depth, hit.bound, hit.pv, hit.eval), (123, 7, Bound::Exact, true, 45));
    assert_eq!(hit.mv(&pos), TtMove::Found(mv));
    assert_eq!(hit.mv(&pos).get(), Some(mv));
    let other = Position::from_fen("4k3/8/8/8/8/8/8/4K3 w - - 0 1");
    assert_eq!(hit.mv(&other), TtMove::Collision);
    t.clear();
    assert_eq!(t.probe(pos.hash, 0).bound, Bound::Empty);
}

#[test]
fn mate_scores_come_back_relative_to_the_reader() {
    let mut t = TranspositionTable::new(1);
    t.store(99, 4, 10, mate_in(6), Move::null(), Bound::Exact, false, 0);
    assert_eq!(t.probe(99, 4).score, mate_in(6));
    assert_eq!(t.probe(99, 2).score, mate_in(4));
}

#[test]
fn a_deep_entry_outlives_a_quiescence_store() {
    let mut t = TranspositionTable::new(1);
    t.begin_search();
    // Keys that differ in their low bits alone share a cluster.
    for (i, depth) in [(1u64, 20), (2, 21), (3, 22)] {
        t.store(i, 0, depth, 10, Move::null(), Bound::Lower, false, 0);
    }
    t.store_qs(4, 0, 5, Move::null(), Bound::Upper, false, 0);
    assert_eq!([t.probe(1, 0).depth, t.probe(2, 0).depth, t.probe(3, 0).depth], [20, 21, 22]);
    assert_eq!(t.probe(4, 0).bound, Bound::Empty);
    // An older generation gives way.
    t.begin_search();
    for (i, depth) in [(1u64, 20), (2, 21)] {
        t.store(i, 0, depth, 10, Move::null(), Bound::Lower, false, 0);
    }
    t.store_qs(4, 0, 5, Move::null(), Bound::Upper, false, 0);
    assert_eq!([t.probe(1, 0).depth, t.probe(2, 0).depth], [20, 21]);
}

#[test]
fn fullness_counts_entries_of_this_search() {
    let mut t = TranspositionTable::new(1);
    assert_eq!(t.hashfull(), 0);
    for i in 0..64u64 {
        // A table of one megabyte has 2^15 clusters.
        t.store(i << 49 | i, 0, 5, 0, Move::null(), Bound::Exact, false, 0);
    }
    assert_eq!(t.hashfull(), 64);
    t.resize(2);
    assert_eq!(t.hashfull(), 0);
}

#[test]
fn bounds_settle_what_they_prove() {
    assert!(can_cutoff(Bound::Exact, 0, -5, 5));
    assert!(can_cutoff(Bound::Lower, 5, -5, 5) && !can_cutoff(Bound::Lower, 4, -5, 5));
    assert!(can_cutoff(Bound::Upper, -5, -5, 5) && !can_cutoff(Bound::Upper, -4, -5, 5));
    assert!(!can_cutoff(Bound::Empty, 0, -5, 5));
    assert_eq!([clamp_to_bound(Bound::Lower, 30, 10), clamp_to_bound(Bound::Upper, 30, 10)], [30, 10]);
    assert_eq!([clamp_to_bound(Bound::Exact, 30, 10), clamp_to_bound(Bound::Empty, 30, 10)], [30, 10]);
}

#[test]
fn history_stays_within_its_caps() {
    let sp = SearchParams::new();
    let mut h = History::new();
    let to = Square(20);
    for _ in 0..200 {
        h.update_capture(Color::White, PieceType::Knight, to, PieceType::Rook, 2000);
    }
    let s = h.score_capture(Color::White, PieceType::Knight, to, PieceType::Rook);
    assert!(s > 0 && s <= sp.capt_hist_cap());
    assert_eq!(h.score_capture(Color::Black, PieceType::Knight, to, PieceType::Rook), 0);
    h.update_capture(Color::White, PieceType::Knight, to, PieceType::Rook, 0);
    assert_eq!(h.score_capture(Color::White, PieceType::Knight, to, PieceType::Rook), s);
    h.clear();
    assert_eq!(h.score_capture(Color::White, PieceType::Knight, to, PieceType::Rook), 0);
    let _ = ContContext::none();
}

#[test]
fn corrections_learn_and_saturate() {
    let mut c = CorrectionHistory::new();
    assert_eq!(c.get(Color::White, 77), 0);
    c.update(Color::White, 77, 40, 6);
    let once = c.get(Color::White, 77);
    assert!(once > 0);
    for _ in 0..2000 {
        c.update(Color::White, 77, 30_000, 12);
    }
    assert_eq!(c.get(Color::White, 77), CORRECTION_LIMIT);
    assert_eq!(c.get(Color::Black, 77), 0);
}

#[test]
fn a_line_grows_at_its_front() {
    let mut tail = Line::new();
    tail.compose(Move::from_u16(7), &Line::new());
    let mut line = Line::new();
    line.compose(Move::from_u16(9), &tail);
    assert_eq!(line.len, 2);
    assert_eq!((line.get(0), line.get(1), line.get(2)), (Some(Move::from_u16(9)), Some(Move::from_u16(7)), None));
}

#[test]
fn a_long_lead_or_silence_ends_a_game() {
    let (mut wins, mut draws) = (0, 0);
    assert_eq!(check_adjudication(3000, 0, &mut wins, &mut draws, Color::Black, 1), Some(GameOutcome::BlackWin));
    let mut last = 0;
    let mut called = None;
    for ply in 0..8 {
        let score = if ply % 2 == 0 { 1500 } else { -1500 };
        let stm = if ply % 2 == 0 { Color::White } else { Color::Black };
        called = check_adjudication(score, last, &mut wins, &mut draws, stm, ply);
        assert_eq!(called.is_some(), ply == 7);
        last = score;
    }
    assert_eq!(called, Some(GameOutcome::WhiteWin));
    assert_eq!(check_adjudication(-1500, last, &mut wins, &mut draws, Color::White, 9), None);
    assert_eq!(wins, 0);
    for ply in 80..96 {
        called = check_adjudication(3, 3, &mut wins, &mut draws, Color::White, ply);
    }
    assert_eq!(called, Some(GameOutcome::Draw));
}

#[test]
fn stores_of_counts_fill_their_buckets() {
    let mut s = PickerStats::new();
    assert!(report(&s).quiets.is_none() && report(&s).cutoffs.is_none());
    record_quiets(&mut s, 30, 2);
    record_quiets(&mut s, 40, 99);
    record_cutoff(&mut s, 0, CutoffKind::Hash);
    record_cutoff(&mut s, 1, CutoffKind::Capture);
    record_cutoff(&mut s, 3, CutoffKind::Killer);
    let r = report(&s);
    let quiets = r.quiets.unwrap();
    assert_eq!((quiets[2].count, quiets[11].count, quiets[11].cumulative, quiets[11].and_more), (1, 1, 2, true));
    let cutoffs = r.cutoffs.unwrap();
    assert_eq!((cutoffs[0].label, cutoffs[0].count, cutoffs[2].count, cutoffs[7].cumulative), (1, 2, 1, 3));
    assert_eq!((s.quiet_generated, s.quiet_consumed, s.cutoff_kind), (70, 101, [1, 1, 1, 0]));
}

#[test]
fn reads_of_corrections_are_counted() {
    let mut s = CorrStats::new();
    record_read(&mut s, Table::Minor, 0);
    record_read(&mut s, Table::Minor, -30);
    record_read(&mut s, Table::Minor, CORRECTION_LIMIT);
    record_update(&mut s, Table::Minor);
    assert_eq!((s.minor.reads, s.minor.hits, s.minor.saturated, s.minor.updates), (3, 2, 1, 1));
    assert_eq!(s.minor.abs_sum, 30 + CORRECTION_LIMIT as u64);
    assert_eq!(s.pawn.reads, 0);
    let sp = SearchParams::new();
    assert_eq!(weights(&sp), [256, sp.minor_corr_weight(), sp.major_corr_weight()]);
}

#[test]
fn weight_blocks_follow_each_other() {
    let v = blocks();
    assert_eq!(v.len(), BLOCK_COUNT);
    assert_eq!(v[0].offset, 0);
    for w in v.windows(2) {
        assert_eq!(w[0].offset + w[0].len, w[1].offset, "{}", w[1].name);
    }
}

#[test]
fn an_exchange_that_meets_a_threshold_meets_lower_ones() {
    let pos = Position::from_fen("1k1r4/1pp4p/p7/4p3/8/P5P1/1PP4P/2K1R3 w - - 0 1");
    let mv = parse_uci_move(&pos, "e1e5").unwrap();
    let pins = Pins::new(&pos);
    let met: Vec<bool> = (-5..5).map(|i| see_ge(&pos, mv, i * 100, &pins)).collect();
    assert!(met.windows(2).all(|w| w[0] || !w[1]));
    assert!(met[0] && !met[9]);
}

#[test]
fn huge_pages_are_asked_for_before_small_ones() {
    let small = ladder(3 * MB2 + 1);
    assert_eq!(small.len(), 2);
    assert_eq!((small[0].kind, small[0].len), (PageKind::Huge2M, 4 * MB2));
    assert_eq!(small[1].kind, PageKind::Thp);
    let large = ladder(GB + 1);
    assert_eq!((large[0].kind, large[0].len), (PageKind::Huge1G, 2 * GB));
    assert_eq!(round_up(5, 4), 8);
    assert_eq!(round_up(8, 4), 8);
    assert_eq!(trim(4097, 4096), (4095, 1));
    assert_eq!([PageKind::Huge1G.label(), PageKind::Huge2M.label(), PageKind::Thp.label(), PageKind::Base.label()], ["1G", "2M", "THP", "4K"]);
}

#[test]
fn no_score_is_beyond_the_bound() {
    assert!(mate_in(0) < INF);
}

#[test]
fn a_quiet_move_scores_what_it_was_taught() {
    let (from, to) = (Square(12), Square(28));
    let none = ContContext::none();
    let one = ContContext { pt: PieceType::Knight, to: Square(18) };
    let two = ContContext { pt: PieceType::Bishop, to: Square(26) };
    let four = ContContext { pt: PieceType::Rook, to: Square(3) };
    let threats = Bitboard::empty();
    let mut h = History::new();
    assert_eq!((h.caps.quiet, h.caps.butterfly, h.caps.cont, h.caps.capt), (8265, 10303, 11324, 12190));
    h.update(Color::White, PieceType::Pawn, from, to, threats, one, two, four, 100);
    assert_eq!(h.score_quiet(Color::White, PieceType::Pawn, from, to, threats, one, two, four), 500);
    assert_eq!(h.score_quiet(Color::White, PieceType::Pawn, from, to, threats, none, none, none), 200);
    assert_eq!(h.score_quiet(Color::Black, PieceType::Pawn, from, to, threats, one, two, four), 0);
    h.update(Color::White, PieceType::Pawn, from, to, threats, one, two, four, -60);
    assert!(h.score_quiet(Color::White, PieceType::Pawn, from, to, threats, one, two, four) < 500);
    assert_eq!(h.score_capture(Color::White, PieceType::Knight, to, PieceType::Rook), 0);
}

#[test]
fn a_capture_is_pulled_towards_its_bound() {
    let mut h = History::new();
    let to = Square(28);
    h.update_capture(Color::White, PieceType::Knight, to, PieceType::Rook, 500);
    assert_eq!(h.score_capture(Color::White, PieceType::Knight, to, PieceType::Rook), 500);
    h.update_capture(Color::White, PieceType::Knight, to, PieceType::Rook, 500);
    assert_eq!(h.score_capture(Color::White, PieceType::Knight, to, PieceType::Rook), 980);
}

#[test]
fn a_new_table_ages_by_two() {
    let t = TranspositionTable::new(1);
    assert_eq!((t.age_factor, t.generation), (2, 0));
}

#[test]
fn corrections_take_any_depth() {
    let mut h = CorrectionHistory::new();
    h.update(Color::White, 7, 100, 1_000_000);
    assert_eq!(h.get(Color::White, 7), 100 * 256 * 32 / 256);
    h.update(Color::Black, 7, 100, -1);
    assert_eq!(h.get(Color::Black, 7), 0);
}
