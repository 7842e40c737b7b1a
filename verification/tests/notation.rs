//! Move strings.

use soul::chess::moves::Move;
use soul::chess::position::Position;
use soul::chess::types::Square;
use soul::engine::movegen::gen_legal_moves;
use soul::protocols::notation::{parse_uci_move, MoveError};

const CASTLING: &str = "r3k2r/8/8/8/8/8/8/R3K2R w KQkq - 0 1";

#[test]
fn castling_parses_from_either_notation() {
    let board = Position::from_fen(CASTLING);
    let kingside = parse_uci_move(&board, "e1h1").unwrap();
    let queenside = parse_uci_move(&board, "e1a1").unwrap();
    assert_eq!(parse_uci_move(&board, "e1g1").unwrap(), kingside);
    assert_eq!(parse_uci_move(&board, "e1c1").unwrap(), queenside);
    assert!(kingside.is_castling() && queenside.is_castling());
    assert!(parse_uci_move(&board, "e1g1q").is_err());
}

#[test]
fn a_move_string_is_four_or_five_characters() {
    let board = Position::from_fen(CASTLING);
    assert!(parse_uci_move(&board, "e1g1xx").is_err());
    assert!(parse_uci_move(&board, "a1a").is_err());
}

#[test]
fn each_fault_of_a_move_string_has_its_error() {
    let board = Position::from_fen(CASTLING);
    assert_eq!(parse_uci_move(&board, "i1g1"), Err(MoveError::InvalidFormat));
    assert_eq!(parse_uci_move(&board, "e1g1x"), Err(MoveError::InvalidFormat));
    assert_eq!(parse_uci_move(&board, "e1e3"), Err(MoveError::NotFound));
}

#[test]
fn a_written_move_reads_back() {
    for fen in [
        CASTLING,
        "rnbq1k1r/pp1Pbppp/2p5/8/2B5/8/PPP1NnPP/RNBQK2R w KQ - 1 8",
        "1rqbkrbn/1ppppp1p/1n6/p1N3p1/8/2P4P/PP1PPPP1/1RQBKRBN w FBfb - 0 1",
    ] {
        let board = Position::from_fen(fen);
        let list = gen_legal_moves(&board);
        for i in 0..list.len() {
            let mv = list.get(i);
            assert_eq!(parse_uci_move(&board, &mv.to_uci(true)), Ok(mv), "{fen} {}", mv.to_uci(true));
        }
    }
}

#[test]
fn moves_are_written_in_coordinates() {
    assert_eq!(Move::new(Square(12), Square(28), Move::DOUBLE_PUSH).to_uci(false), "e2e4");
    let castle = Move::new(Square(4), Square(7), Move::CASTLE);
    assert_eq!(castle.to_uci(false), "e1g1");
    assert_eq!(castle.to_uci(true), "e1h1");
    assert_eq!(Move::new(Square(52), Square(60), Move::PROM_Q).to_uci(false), "e7e8q");
}

#[test]
fn a_king_step_comes_before_castling_to_the_same_square() {
    let board = Position::from_fen("4k3/8/8/8/8/8/8/5K1R w H - 0 1");
    let step = parse_uci_move(&board, "f1g1").unwrap();
    assert!(!step.is_castling());
    assert_eq!(step.to(), Square(6));
    assert!(parse_uci_move(&board, "f1h1").unwrap().is_castling());
    for i in 0..gen_legal_moves(&board).len() {
        let m = gen_legal_moves(&board).get(i);
        assert_eq!(parse_uci_move(&board, &m.to_uci(true)), Ok(m));
    }
}
