//! Mobility and openness.

use soul::chess::fen::STARTPOS;
use soul::chess::position::Position;
use soul::chess::spatial::{piece_mobility, XorBoard};
use soul::chess::types::{Color, PieceType};
use soul::engine::eval::{detailed_eval, evaluate, evaluate_psqt, lazy_eval_margin, SharedFeatures};
use soul::engine::pawns::{PawnCache, PawnFeatures};
use soul::engine::mobility::{Mobility, OPEN_UNITY, PAWN_SCALE, RAM_SCALE};
use soul::engine::search_params::SearchParams;

#[test]
fn per_piece_mobility_matches_the_probes() {
    const FENS: [&str; 5] = [
        STARTPOS,
        "r3k2r/p1ppqpb1/bn2pnp1/3PN3/1p2P3/2N2Q1p/PPPBBPPP/R3K2R w KQkq - 0 1",
        "rnbq1k1r/pp1Pbppp/2p5/8/2B5/8/PPP1NnPP/RNBQK2R w KQ - 1 8",
        "8/2p5/3p4/KP5r/1R3p1k/8/4P1P1/8 w - - 0 1",
        "1rqbkrbn/1ppppp1p/1n6/p1N3p1/8/2P4P/PP1PPPP1/1RQBKRBN w FBfb - 0 1",
    ];

    for fen in FENS {
        let pos = Position::from_fen(fen);
        let rows = XorBoard::new(&pos);

        for color in [Color::White, Color::Black] {
            let pinned = pos.pinned_pieces(color);
            let ksq = pos.pieces(PieceType::King, color).lsb();
            let area = pos.pawn_attacks(color.opposite()).not();
            let from_rows = piece_mobility(&pos, Some(&rows), color, pinned, ksq, area);
            let from_probes = piece_mobility(&pos, None, color, pinned, ksq, area);
            assert_eq!(from_rows, from_probes, "{fen} {color:?}");
        }
    }
}

#[test]
fn openness_counts_the_locked_pair() {
    let pos = Position::from_fen("4k3/8/8/4p3/4P3/8/8/4K3 w - - 0 1");
    assert_eq!(Mobility::compute_openness(&pos), OPEN_UNITY - RAM_SCALE - 2 * PAWN_SCALE);
}

#[test]
fn attackers_are_men_and_weak_squares_are_squares() {
    let board = Position::from_fen("4k3/8/8/8/8/8/r7/4K3 w - - 0 1");
    let safety = SharedFeatures::compute(&board).spatial.safety_us;
    assert_eq!(safety.attackers, 1);
    assert_eq!(safety.weak, 3);
    let board = Position::from_fen("4k3/8/8/8/8/7n/r7/4K3 w - - 0 1");
    assert_eq!(SharedFeatures::compute(&board).spatial.safety_us.attackers, 2);
    let board = Position::from_fen(STARTPOS);
    assert_eq!(SharedFeatures::compute(&board).spatial.safety_us.attackers, 0);
}

#[test]
fn every_passed_pawn_falls_into_one_bucket() {
    let board = Position::from_fen("4k3/P6P/8/3P4/8/1p6/8/4K3 w - - 0 1");
    let f = SharedFeatures::compute(&board);
    assert_eq!(f.passed_pawn.iter().sum::<i32>(), 2);
    assert_eq!(f.enemy_king_dist.iter().sum::<i32>(), 2);
    assert_eq!((f.tempo, f.bishop_pair_diff), (1, 0));
    let pawn = PawnFeatures::compute(&board);
    let rows = XorBoard::new(&board);
    let g = SharedFeatures::with_pawn(&board, &pawn, Some(&rows));
    assert_eq!((f.spatial, f.enemy_king_dist), (g.spatial, g.enemy_king_dist));
}

#[test]
fn the_cache_answers_with_what_is_measured() {
    let mut cache = PawnCache::new();
    for fen in [STARTPOS, "4k3/P6P/8/3P4/8/1p6/8/4K3 w - - 0 1", STARTPOS, "4k3/8/8/8/8/8/8/4K3 w - - 0 1"] {
        let board = Position::from_fen(fen);
        let measured = PawnFeatures::compute(&board);
        for _ in 0..2 {
            let f = cache.probe(&board);
            assert_eq!((f.passed_pawn, f.phalanx, f.openness), (measured.passed_pawn, measured.phalanx, measured.openness));
        }
    }
}

#[test]
fn piece_square_sums_turn_with_the_side() {
    let white = Position::from_fen("4k3/8/8/3N4/8/8/8/4K3 w - - 0 1");
    let black = Position::from_fen("4k3/8/8/3N4/8/8/8/4K3 b - - 0 1");
    let acc = white.get_initial_accumulator();
    for phase in [-3, 0, 7, 24, 40] {
        let x = evaluate_psqt(&white, &acc, phase);
        assert_eq!(x, -evaluate_psqt(&black, &acc, phase));
        assert_eq!(x, (acc.mg * phase + acc.eg * (24 - phase)) / 24);
    }
}

#[test]
fn a_lazy_margin_widens_with_the_phase() {
    let board = Position::from_fen(STARTPOS);
    let params = SearchParams::new();
    assert_eq!(lazy_eval_margin(&board, 0, &params), 160);
    assert_eq!(lazy_eval_margin(&board, 24, &params), 463);
    for phase in 0..24 {
        assert!(lazy_eval_margin(&board, phase, &params) <= lazy_eval_margin(&board, phase + 1, &params));
    }
    for divisor in [1, 0, -3] {
        let mut values = params.values;
        values[4] = divisor;
        assert_eq!(lazy_eval_margin(&board, 24, &SearchParams { values }), 5008);
    }
}

#[test]
fn details_add_up_to_the_evaluation() {
    for fen in [
        STARTPOS,
        "r3k2r/p1ppqpb1/bn2pnp1/3PN3/1p2P3/2N2Q1p/PPPBBPPP/R3K2R w KQkq - 0 1",
        "r3k2r/p1ppqpb1/bn2pnp1/3PN3/1p2P3/2N2Q1p/PPPBBPPP/R3K2R b KQkq - 0 1",
        "8/2p5/3p4/KP5r/1R3p1k/8/4P1P1/8 w - - 0 1",
    ] {
        let board = Position::from_fen(fen);
        let acc = board.get_initial_accumulator();
        let d = detailed_eval(&board, &acc);
        assert_eq!(d.total, evaluate(&board, &acc), "{fen}");
        assert_eq!(d.total, d.psqt + d.mobility + d.bonus + d.safety, "{fen}");
    }
}

#[test]
fn features_do_not_depend_on_the_rows() {
    let board = Position::from_fen("r3k2r/p1ppqpb1/bn2pnp1/3PN3/1p2P3/2N2Q1p/PPPBBPPP/R3K2R w KQkq - 0 1");
    let pawn = PawnFeatures::compute(&board);
    let rows = XorBoard::new(&board);
    let f = SharedFeatures::with_pawn(&board, &pawn, Some(&rows));
    let g = SharedFeatures::compute(&board);
    assert_eq!((f.openness, f.tempo, f.passed_pawn), (g.openness, g.tempo, g.passed_pawn));
    assert_eq!((f.tempo, f.rook_open_diff, f.bishop_pair_diff), (1, g.rook_open_diff, g.bishop_pair_diff));
}
