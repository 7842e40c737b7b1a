//! Positions as text.

use soul::chess::fen::{FenError, STARTPOS};
use soul::chess::position::Position;
use soul::chess::types::Color;
use soul::text::{chars_of, signed_of, unsigned_of, words_of};

fn fault(fen: &str) -> Option<FenError> {
    Position::try_from_fen(fen).err()
}

#[test]
fn each_fault_of_a_position_has_its_error() {
    assert_eq!(fault(STARTPOS), None);
    assert_eq!(fault("4k3/8/8/8/8/8/8/4K3 w -"), Some(FenError::Fields));
    assert_eq!(fault("4k3/8/8/8/8/8/8/4K3 w - - 0 1 2"), Some(FenError::Fields));
    assert_eq!(fault("4k3/8/8/8/8/8/4K3 w - - 0 1"), Some(FenError::Placement));
    assert_eq!(fault("4k3/9/8/8/8/8/8/4K3 w - - 0 1"), Some(FenError::Placement));
    assert_eq!(fault("4k3/8/8/8/8/8/8/4K3 x - - 0 1"), Some(FenError::Side));
    assert_eq!(fault("8/8/8/8/8/8/8/4K3 w - - 0 1"), Some(FenError::Kings));
    assert_eq!(fault("4k2P/8/8/8/8/8/8/4K3 w - - 0 1"), Some(FenError::Pawns));
    assert_eq!(fault("4k3/8/8/8/8/8/8/4K3 w K - 0 1"), Some(FenError::Castling));
    assert_eq!(fault("4k3/8/8/8/8/8/8/4K3 w - e9 0 1"), Some(FenError::EnPassant));
    assert_eq!(fault("4k3/8/8/8/8/8/8/4K3 w - - x 1"), Some(FenError::Counter));
    assert_eq!(fault("4k3/8/8/8/8/8/4R3/4K3 w - - 0 1"), Some(FenError::Check));
}

#[test]
fn counters_may_be_left_out() {
    let p = Position::try_from_fen("4k3/8/8/8/8/8/8/4K3 b - -").unwrap();
    assert_eq!((p.stm, p.halfmove_clock, p.fullmove_number), (Color::Black, 0, 1));
    let p = Position::try_from_fen("4k3/8/8/8/8/8/8/4K3 b - - 12 34").unwrap();
    assert_eq!((p.halfmove_clock, p.fullmove_number), (12, 34));
}

#[test]
fn an_en_passant_square_counts_only_where_it_can_be_used() {
    let usable = Position::from_fen("4k3/8/8/8/3pP3/8/8/4K3 b - e3 0 1");
    assert!(usable.en_passant.is_some());
    let idle = Position::from_fen("4k3/8/8/8/3p4/8/8/4K3 b - e3 0 1");
    assert!(idle.en_passant.is_none());
}

#[test]
fn words_are_parted_at_blanks() {
    let w: Vec<String> = words_of(&chars_of("  go\tdepth\u{a0}7 \n")).iter().map(|w| w.iter().collect()).collect();
    assert_eq!(w, ["go", "depth", "7"]);
}

#[test]
fn numbers_keep_their_ranges() {
    let u = |s: &str| unsigned_of(&chars_of(s));
    assert_eq!((u("18446744073709551615"), u("18446744073709551616"), u("-1"), u("")), (Some(u64::MAX), None, None, None));
    assert_eq!((u("+5"), u("007"), u("5x")), (Some(5), Some(7), None));
    let i = |s: &str| signed_of(&chars_of(s));
    assert_eq!((i("-2147483648"), i("2147483647"), i("2147483648"), i("-")), (Some(i32::MIN), Some(i32::MAX), None, None));
}
