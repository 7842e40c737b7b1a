//! The staged move picker.

use std::sync::atomic::AtomicBool;
use std::sync::Arc;
use std::time::Instant;

use soul::chess::bitboard::Bitboard;
use soul::chess::fen::STARTPOS;
use soul::chess::moves::Move;
use soul::chess::pins::Pins;
use soul::chess::position::Position;
use soul::engine::config::{Limits, SearchConfig};
use soul::engine::history::{ContContext, History};
use soul::engine::movegen::{gen_pseudo_moves, gen_tactical_moves};
use soul::engine::movepicker::MovePicker;
use soul::engine::search_params::SearchParams;

const FENS: [&str; 6] = [
    STARTPOS,
    "r3k2r/p1ppqpb1/bn2pnp1/3PN3/1p2P3/2N2Q1p/PPPBBPPP/R3K2R w KQkq - 0 1",
    "r3k2r/p1ppqpb1/bn2pnp1/3PN3/1p2P3/2N2Q1p/PPPBBPPP/R3K2R b KQkq - 0 1",
    "1rqbkrbn/1ppppp1p/1n6/p1N3p1/8/2P4P/PP1PPPP1/1RQBKRBN w FBfb - 0 1",
    "rnbq1k1r/pp1Pbppp/2p5/8/2B5/8/PPP1NnPP/RNBQK2R w KQ - 1 8",
    "8/2p5/3p4/KP5r/1R3p1k/8/4P1P1/8 w - - 0 1",
];

fn config() -> SearchConfig {
    SearchConfig::new(
        Limits { silent: true, ..Default::default() },
        Instant::now(),
        Arc::new(AtomicBool::new(false)),
        0,
        SearchParams::new(),
    )
}

#[test]
fn every_stage_together_yields_what_movegen_does() {
    let cfg = config();
    let history = History::new();

    for fen in FENS {
        let board = Position::from_fen(fen);

        let list = gen_pseudo_moves(&board);
        let all: Vec<Move> = (0..list.len()).map(|i| list.get(i)).collect();
        let mut expected: Vec<u16> = all.iter().map(|mv| mv.inner()).collect();
        expected.sort_unstable();

        let quiets: Vec<Move> = all.iter().copied().filter(|mv| mv.is_history_quiet()).collect();
        let first = quiets.first().copied().unwrap_or(Move::null());
        let second = quiets.get(1).copied().unwrap_or(Move::null());
        let last = quiets.last().copied().unwrap_or(Move::null());

        for (case, killers) in [[Move::null(); 2], [first, second], [last, Move::null()]].into_iter().enumerate() {
            let mut picker = MovePicker::new(
                None,
                &cfg,
                Pins::new(&board),
                killers,
                Bitboard(0),
                ContContext::none(),
                ContContext::none(),
                ContContext::none(),
            );

            let mut picked = Vec::new();
            while let Some(mv) = picker.next(&board, &history) {
                picked.push(mv.inner());
            }

            picked.sort_unstable();
            assert_eq!(picked, expected, "{fen} killer case {case}");
        }
    }
}

#[test]
fn the_hash_move_comes_first_and_once() {
    let cfg = config();
    let history = History::new();
    for fen in FENS {
        let board = Position::from_fen(fen);
        let list = gen_pseudo_moves(&board);
        let hash = list.get(list.len() / 2);
        let mut picker = MovePicker::new(
            Some(hash),
            &cfg,
            Pins::new(&board),
            [Move::null(); 2],
            Bitboard(0),
            ContContext::none(),
            ContContext::none(),
            ContContext::none(),
        );
        assert_eq!(picker.next(&board, &history), Some(hash));
        let mut count = 1;
        while let Some(mv) = picker.next(&board, &history) {
            assert_ne!(mv, hash);
            count += 1;
        }
        assert_eq!(count, list.len());
    }
}

#[test]
fn quiescence_sees_the_tactical_moves() {
    let cfg = config();
    let history = History::new();
    for fen in FENS {
        let board = Position::from_fen(fen);
        let mut picker = MovePicker::new_qsearch(None, &cfg, Pins::new(&board), false);
        let list = gen_tactical_moves(&board);
        let mut count = 0;
        while let Some(mv) = picker.next(&board, &history) {
            assert!(list.contains(mv), "{fen} {}", mv.to_uci(false));
            count += 1;
        }
        assert_eq!(count, list.len(), "{fen}");
    }
}
