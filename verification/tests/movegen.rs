//! Move generation, the validators and make/unmake.

use soul::chess::bitboard::Bitboard;
use soul::chess::fen::STARTPOS;
use soul::chess::moves::Move;
use soul::chess::position::Position;
use soul::chess::types::{Color, PieceType, Square};
use soul::chess::zobrist::{key_of, state_word_of, KeyKind};
use soul::engine::movegen::{gen_legal_moves, gen_pseudo_moves, gen_tactical_moves, is_legal, is_pseudo_legal};
use soul::protocols::notation::parse_uci_move;

#[test]
fn ep_diagonal_discovered_check() {
    let pos = Position::from_fen("K7/8/8/3Pp3/8/8/8/4k2b w - e6 0 1");
    let moves = gen_legal_moves(&pos);
    let ep_move = Move::new(Square::from_coords(3, 4), Square::from_coords(4, 5), Move::EP_CAPTURE);
    assert!(
        !moves.contains(ep_move),
        "EP move should be illegal due to diagonal discovered check exposing the mover's king"
    );
    let pos2 = Position::from_fen("4k3/8/8/r2Pp2K/8/8/8/8 w - e6 0 1");
    let moves2 = gen_legal_moves(&pos2);
    assert!(
        !moves2.contains(ep_move),
        "EP move should be illegal due to horizontal discovered check exposing the mover's king"
    );
}

#[test]
fn tt_castle_move_validates_corridor() {
    let pos = Position::from_fen("r3k2r/8/8/8/8/8/8/R3K1NR w KQkq - 0 1");
    let e1 = Square(4);
    let kingside = Move::new(e1, Square(7), Move::CASTLE);
    let queenside = Move::new(e1, Square(0), Move::CASTLE);
    assert!(!is_pseudo_legal(&pos, kingside), "kingside castle through the g1 knight must be rejected");
    assert!(is_pseudo_legal(&pos, queenside), "queenside castle with a clear corridor must pass");
}

#[test]
fn tt_double_push_validates_start_rank() {
    let pos = Position::from_fen("4k3/8/8/8/8/4P3/8/4K3 w - - 0 1");
    let phantom = Move::new(Square::from_coords(4, 2), Square::from_coords(4, 4), Move::DOUBLE_PUSH);
    assert!(!is_pseudo_legal(&pos, phantom), "double push from the third rank must be rejected");
    let start = Position::from_fen("4k3/8/8/8/8/8/4P3/4K3 w - - 0 1");
    let real = Move::new(Square::from_coords(4, 1), Square::from_coords(4, 3), Move::DOUBLE_PUSH);
    assert!(is_pseudo_legal(&start, real), "double push from the second rank must pass");
}

#[test]
fn legality_perft_matches_reference() {
    let cases: &[(&str, &[u64])] = &[
        (STARTPOS, &[1, 20, 400, 8902]),
        ("r3k2r/p1ppqpb1/bn2pnp1/3PN3/1p2P3/2N2Q1p/PPPBBPPP/R3K2R w KQkq - 0 1", &[1, 48, 2039]),
        ("8/2p5/3p4/KP5r/1R3p1k/8/4P1P1/8 w - - 0 1", &[1, 14, 191, 2812]),
        ("r3k2r/Pppp1ppp/1b3nbN/nP6/BBP1P3/q4N2/Pp1P2PP/R2Q1RK1 w kq - 0 1", &[1, 6, 264]),
        ("rnbq1k1r/pp1Pbppp/2p5/8/2B5/8/PPP1NnPP/RNBQK2R w KQ - 1 8", &[1, 44, 1486]),
        ("r4rk1/1pp1qppp/p1np1n2/2b1p1B1/2B1P1b1/P1NP1N2/1PP1QPPP/R4RK1 w - - 0 10", &[1, 46, 2079]),
    ];

    for (fen, expected) in cases {
        let pos = Position::from_fen(fen);
        for (depth, &want) in expected.iter().enumerate() {
            assert_eq!(legality_perft(&pos, depth), want, "legality perft depth {depth} for {fen}");
        }
    }
}

#[test]
fn legality_perft_deep() {
    let cases: &[(&str, &[u64])] = &[
        (STARTPOS, &[1, 20, 400, 8902, 197281]),
        ("r3k2r/p1ppqpb1/bn2pnp1/3PN3/1p2P3/2N2Q1p/PPPBBPPP/R3K2R w KQkq - 0 1", &[1, 48, 2039, 97862]),
        ("8/2p5/3p4/KP5r/1R3p1k/8/4P1P1/8 w - - 0 1", &[1, 14, 191, 2812, 43238]),
        ("rnbq1k1r/pp1Pbppp/2p5/8/2B5/8/PPP1NnPP/RNBQK2R w KQ - 1 8", &[1, 44, 1486, 62379]),
        ("r4rk1/1pp1qppp/p1np1n2/2b1p1B1/2B1P1b1/P1NP1N2/1PP1QPPP/R4RK1 w - - 0 10", &[1, 46, 2079, 89890]),
    ];

    for (fen, expected) in cases {
        let pos = Position::from_fen(fen);
        for (depth, &want) in expected.iter().enumerate() {
            assert_eq!(legality_perft(&pos, depth), want, "deep legality perft depth {depth} for {fen}");
        }
    }
}

/// Counts legal-move paths by validating every 16-bit encoding.
fn legality_perft(pos: &Position, depth: usize) -> u64 {
    if depth == 0 {
        return 1;
    }

    let stm = pos.stm;
    let opp = stm.opposite();
    let ksq = pos.pieces(PieceType::King, stm).lsb();
    let pinned = pos.king_blockers();
    let checkers = pos.checkers();

    let mut nodes = 0;

    for raw in 0..=u16::MAX {
        // Three flag nibbles are never handed out.
        if matches!(raw >> 12, 8 | 9 | 13) {
            continue;
        }

        let mv = Move::from_u16(raw);
        if !is_pseudo_legal(pos, mv) || !is_legal(pos, mv, ksq, pinned, checkers, opp) {
            continue;
        }

        let mut child = *pos;
        let mut acc = child.get_initial_accumulator();
        child.make_move(mv, &mut acc);
        nodes += legality_perft(&child, depth - 1);
    }
    nodes
}

#[test]
fn fuzz_make_unmake_integrity() {
    const POSITIONS: usize = 256;

    let mut state: u64 = 0x9E3779B97F4A7C15;
    let mut pos = Position::from_fen(STARTPOS);
    let mut acc = pos.get_initial_accumulator();

    for _ in 0..POSITIONS {
        check_every_move(&pos);

        let legal = gen_legal_moves(&pos);
        if legal.is_empty() {
            pos = Position::from_fen(STARTPOS);
            acc = pos.get_initial_accumulator();
            continue;
        }

        state ^= state << 13;
        state ^= state >> 7;
        state ^= state << 17;
        let mv = legal.get(state as usize % legal.len());
        pos.make_move(mv, &mut acc);
    }
}

/// Every move the validators accept must survive make and unmake.
fn check_every_move(pos: &Position) {
    let stm = pos.stm;
    let opp = stm.opposite();
    let ksq = pos.pieces(PieceType::King, stm).lsb();
    let pinned = pos.king_blockers();
    let checkers = pos.checkers();

    for raw in 0..=u16::MAX {
        let mv = Move::from_u16(raw);

        if !is_pseudo_legal(pos, mv) || !is_legal(pos, mv, ksq, pinned, checkers, opp) {
            continue;
        }

        let mut child = *pos;
        let mut acc = child.get_initial_accumulator();
        let undo = child.make_move(mv, &mut acc);

        assert_consistent(&child, mv);
        assert_eq!(acc, child.get_initial_accumulator(), "accumulator diverged after {}", mv.to_uci(pos.is_frc));

        child.unmake_move(undo);
        assert!(board_eq(&child, pos), "unmake did not restore {}", mv.to_uci(pos.is_frc));
    }
}

/// Every internal view of a position agrees with the others.
fn assert_consistent(pos: &Position, mv: Move) {
    let name = mv.to_uci(pos.is_frc);
    let w = pos.side_bb[Color::White.idx()];
    let b = pos.side_bb[Color::Black.idx()];

    assert_eq!(pos.occ.0, w.0 | b.0, "occupancy is not the color union after {name}");
    assert_eq!(w.0 & b.0, 0, "a square is owned by both colors after {name}");

    let mut union: u64 = 0;
    let mut count: u32 = 0;
    let kinds =
        [PieceType::Pawn, PieceType::Knight, PieceType::Bishop, PieceType::Rook, PieceType::Queen, PieceType::King];

    for pt in kinds {
        let role = pos.role_bb[pt.idx()];
        assert_eq!(role.0 & !pos.occ.0, 0, "role {pt:?} outside occupancy after {name}");
        union |= role.0;
        count += role.popcount();
    }

    assert_eq!(union, pos.occ.0, "roles do not cover occupancy after {name}");
    assert_eq!(count, pos.occ.popcount(), "two roles share a square after {name}");

    for color in [Color::White, Color::Black] {
        assert_eq!(pos.pieces(PieceType::King, color).popcount(), 1, "{color:?} king count after {name}");
    }

    for i in 0..64 {
        let sq = Square(i);
        let pt = pos.piece_at(sq);
        assert_eq!(pos.occ.check_bit(sq), pt != PieceType::Empty, "mailbox/occupancy disagree at {i} after {name}");
        if pt != PieceType::Empty {
            assert!(pos.role_bb[pt.idx()].check_bit(sq), "mailbox/role disagree at {i} after {name}");
        }
    }

    let full = key_of(KeyKind::All, &pos.cells) ^ state_word_of(&pos.castling_rights, pos.en_passant, pos.stm);
    assert_eq!(pos.hash, full, "hash desynced after {name}");
    assert_eq!(pos.pawn_key, key_of(KeyKind::Pawn, &pos.cells), "pawn key desynced after {name}");
    assert_eq!(pos.minor_key, key_of(KeyKind::Minor, &pos.cells), "minor key desynced after {name}");
    assert_eq!(pos.major_key, key_of(KeyKind::Major, &pos.cells), "major key desynced after {name}");
}

fn board_eq(a: &Position, b: &Position) -> bool {
    a.side_bb == b.side_bb
        && a.role_bb == b.role_bb
        && a.occ == b.occ
        && a.hash == b.hash
        && a.pawn_key == b.pawn_key
        && a.minor_key == b.minor_key
        && a.major_key == b.major_key
        && a.cells == b.cells
        && a.castling_rights == b.castling_rights
        && a.stm == b.stm
        && a.en_passant == b.en_passant
        && a.halfmove_clock == b.halfmove_clock
        && a.fullmove_number == b.fullmove_number
}

#[test]
fn tactical_moves_are_captures_and_promotions() {
    let pos = Position::from_fen("r3k2r/p1ppqpb1/bn2pnp1/3PN3/1p2P3/2N2Q1p/PPPBBPPP/R3K2R w KQkq - 0 1");
    let all = gen_pseudo_moves(&pos);
    let tactical = gen_tactical_moves(&pos);
    assert_eq!(tactical.len(), 8);
    for i in 0..all.len() {
        let mv = all.get(i);
        assert_eq!(tactical.contains(mv), mv.is_capture());
    }
    let promoting = Position::from_fen("7k/4P3/8/8/8/8/8/7K w - - 0 1");
    assert_eq!(gen_tactical_moves(&promoting).len(), 4);
}

#[test]
fn a_null_move_passes_the_turn_and_comes_back() {
    let mut pos = Position::from_fen("rnbqkbnr/ppp1pppp/8/8/3pP3/8/PPPP1PPP/RNBQKBNR b KQkq e3 0 3");
    let before = pos;
    let undo = pos.make_null_move();
    assert_eq!(pos.stm, Color::White);
    assert_eq!(pos.en_passant, None);
    assert_eq!(pos.halfmove_clock, 1);
    assert_ne!(pos.hash, before.hash);
    pos.unmake_move(undo);
    assert!(board_eq(&pos, &before));
}

#[test]
fn a_count_of_squares_is_a_count_of_bits() {
    assert_eq!(Bitboard(0xFF00_0000_0000_00FF).popcount(), 16);
    assert_eq!(Bitboard(0).popcount(), 0);
    assert_eq!(Bitboard(u64::MAX).popcount(), 64);
}

#[test]
fn two_ways_to_a_position_share_their_keys() {
    let mut ends = Vec::new();
    for order in [["g1f3", "g8f6", "b1c3", "b8c6"], ["b1c3", "b8c6", "g1f3", "g8f6"]] {
        let mut pos = Position::from_fen(STARTPOS);
        let mut acc = pos.get_initial_accumulator();
        for uci in order {
            let mv = parse_uci_move(&pos, uci).unwrap();
            pos.make_move(mv, &mut acc);
        }
        ends.push(pos);
    }
    assert_eq!(ends[0].hash, ends[1].hash);
    assert_eq!(ends[0].pawn_key, ends[1].pawn_key);
    assert_eq!((ends[0].minor_key, ends[0].major_key), (ends[1].minor_key, ends[1].major_key));
    assert_ne!(ends[0].hash, Position::from_fen(STARTPOS).hash);
}

#[test]
fn legal_moves_come_once() {
    for fen in [
        STARTPOS,
        "r3k2r/p1ppqpb1/bn2pnp1/3PN3/1p2P3/2N2Q1p/PPPBBPPP/R3K2R w KQkq - 0 1",
        "8/2p5/3p4/KP5r/1R3p1k/8/4P1P1/8 w - - 0 1",
    ] {
        let pos = Position::from_fen(fen);
        let all = gen_pseudo_moves(&pos);
        let legal = gen_legal_moves(&pos);
        for i in 0..legal.len() {
            assert!(all.contains(legal.get(i)));
            for j in 0..i {
                assert_ne!(legal.get(i), legal.get(j), "{fen}");
            }
        }
    }
}
