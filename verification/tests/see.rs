//! Static exchange evaluation.

use soul::chess::moves::Move;
use soul::chess::pins::Pins;
use soul::chess::position::Position;
use soul::engine::movegen::gen_legal_moves;
use soul::engine::see::{see_ge, SEE_VALUE};

const P: i32 = SEE_VALUE[0];
const N: i32 = SEE_VALUE[1];
const R: i32 = SEE_VALUE[3];
const Q: i32 = SEE_VALUE[4];

#[test]
fn the_exchange_scale_holds_still() {
    assert_eq!(SEE_VALUE[..6], [92, 373, 372, 568, 1160, 0]);
}

/// Resolve a UCI move string against the legal move list.
fn legal_move(pos: &Position, uci: &str) -> Move {
    let list = gen_legal_moves(pos);
    for i in 0..list.len() {
        if list.get(i).to_uci(pos.is_frc) == uci {
            return list.get(i);
        }
    }
    panic!("move {uci} not legal");
}

fn assert_see(fen: &str, uci: &str, expected: i32) {
    let pos = Position::from_fen(fen);
    let mv = legal_move(&pos, uci);
    let pins = Pins::new(&pos);
    assert!(see_ge(&pos, mv, expected, &pins), "SEE({uci}) >= {expected} should hold\n  fen: {fen}");
    assert!(!see_ge(&pos, mv, expected + 1, &pins), "SEE({uci}) >= {} should fail\n  fen: {fen}", expected + 1);
}

#[test]
fn rook_takes_undefended_pawn() {
    assert_see("7k/8/8/4p3/8/8/8/4R2K w - - 0 1", "e1e5", P);
}

#[test]
fn rook_takes_pawn_defended_by_rook() {
    assert_see("4r2k/8/8/4p3/8/8/8/4R2K w - - 0 1", "e1e5", P - R);
}

#[test]
fn pawn_takes_knight_undefended() {
    assert_see("7k/8/8/3n4/4P3/8/8/7K w - - 0 1", "e4d5", N);
}

#[test]
fn pawn_takes_knight_defended_by_pawn() {
    assert_see("7k/8/2p5/3n4/4P3/8/8/7K w - - 0 1", "e4d5", N - P);
}

#[test]
fn queen_takes_pawn_defended_by_pawn() {
    assert_see("7k/8/8/8/2p5/3p4/4Q3/7K w - - 0 1", "e2d3", P - Q);
}

#[test]
fn knight_takes_knight_defended_by_knight() {
    assert_see("7k/4n3/8/3n4/8/2N5/8/7K w - - 0 1", "c3d5", 0);
}

#[test]
fn rook_battery_xray_chain() {
    assert_see("4r3/4r2k/8/4p3/8/8/4R3/4R2K w - - 0 1", "e2e5", P - R);
}

#[test]
fn en_passant_undefended() {
    assert_see("4k3/8/8/2pP4/8/8/8/4K3 w - c6 0 1", "d5c6", P);
}

#[test]
fn en_passant_defended_by_knight() {
    assert_see("1n2k3/8/8/2pP4/8/8/8/4K3 w - c6 0 1", "d5c6", 0);
}

#[test]
fn quiet_queen_promotion_undefended() {
    assert_see("7k/4P3/8/8/8/8/8/7K w - - 0 1", "e7e8q", Q - P);
}

#[test]
fn quiet_queen_promotion_defended_by_knight() {
    assert_see("7k/2n1P3/8/8/8/8/8/7K w - - 0 1", "e7e8q", -P);
}

#[test]
fn capture_promotion_undefended() {
    assert_see("4n2k/3P4/8/8/8/8/8/4K3 w - - 0 1", "d7e8q", N + Q - P);
}

#[test]
fn pinned_defender_cannot_recapture() {
    assert_see("8/8/k7/4p2R/2n5/8/4B3/6K1 w - - 0 1", "h5e5", P);
}
