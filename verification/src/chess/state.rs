//! Draws by rule, and what is left on the board.

use vstd::prelude::*;

use crate::chess::position::Position;
use crate::chess::rules::{self, Cell};
use crate::chess::types::{Color, PieceType};

verus! {

/// Plies without capture or pawn move after which the game is drawn.
pub const FIFTY_MOVES: u32 = 100;

/// A man other than a king or pawn of side `c` stands on `s`.
pub open spec fn piece_on(b: Seq<Cell>, c: Color, s: int) -> bool {
    rules::owned(b, s, c) && b[s]->0.kind != PieceType::Pawn && b[s]->0.kind != PieceType::King
}

/// A man that can still force mate, or another beside it, stands on `s`.
pub open spec fn heavy(b: Seq<Cell>, s: int) -> bool {
    rules::occupied(b, s) && (b[s]->0.kind == PieceType::Pawn || b[s]->0.kind == PieceType::Rook || b[s]->0.kind
        == PieceType::Queen)
}

/// A knight or bishop stands on `s`.
pub open spec fn minor(b: Seq<Cell>, s: int) -> bool {
    rules::occupied(b, s) && (b[s]->0.kind == PieceType::Knight || b[s]->0.kind == PieceType::Bishop)
}

/// Neither side can mate: no pawn, rook or queen is left, and at most one knight or bishop.
pub open spec fn dead(b: Seq<Cell>) -> bool {
    &&& forall|s: int| !#[trigger] heavy(b, s)
    &&& forall|s: int, t: int| #[trigger] minor(b, s) && #[trigger] minor(b, t) ==> s == t
}

impl Position {
    /// Whether side `c` has a man other than its king and pawns.
    pub fn has_non_pawn_material(&self, c: Color) -> (r: bool)
        requires
            self.mirrored(),
        ensures
            r <==> exists|s: int| #[trigger] piece_on(self.board(), c, s),
    {
        let ghost b = self.board();
        let plain = self.role(PieceType::Pawn).or(self.role(PieceType::King));
        let men = self.side(c).and(plain.not());
        let r = men.is_not_empty();
        proof {
            assert forall|s: int| #[trigger] men.has(s) <==> piece_on(b, c, s) by {}
            if r {
                let s = choose|s: int| #[trigger] men.has(s);
                assert(piece_on(b, c, s));
            }
            if exists|s: int| #[trigger] piece_on(b, c, s) {
                let s = choose|s: int| #[trigger] piece_on(b, c, s);
                assert(men.has(s));
            }
        }
        r
    }

    /// Whether fifty moves of each side have passed without capture or pawn move.
    pub fn is_fifty_move_draw(&self) -> (r: bool)
        ensures
            r == (self.halfmove_clock >= FIFTY_MOVES),
    {
        self.halfmove_clock >= FIFTY_MOVES
    }

    /// Whether neither side can mate.
    pub fn is_draw_by_material(&self) -> (r: bool)
        requires
            self.mirrored(),
        ensures
            r == dead(self.board()),
    {
        let ghost b = self.board();
        let strong = self.role(PieceType::Pawn).or(self.role(PieceType::Rook)).or(self.role(PieceType::Queen));
        let light = self.role(PieceType::Knight).or(self.role(PieceType::Bishop));
        let any = strong.is_not_empty();
        let many = light.more_than_one();
        proof {
            assert forall|s: int| #[trigger] strong.has(s) <==> heavy(b, s) by {}
            assert forall|s: int| #[trigger] light.has(s) <==> minor(b, s) by {}
            if any {
                let s = choose|s: int| #[trigger] strong.has(s);
                assert(heavy(b, s));
            }
            if many {
                let (s, t) = choose|s: int, t: int| #[trigger] light.has(s) && #[trigger] light.has(t) && s != t;
                assert(minor(b, s) && minor(b, t));
            }
            if !any && !many {
                assert forall|s: int| !#[trigger] heavy(b, s) by {
                    assert(!strong.has(s));
                }
                assert forall|s: int, t: int| #[trigger] minor(b, s) && #[trigger] minor(b, t) implies s == t by {
                    assert(light.has(s) && light.has(t));
                }
            }
        }
        !any && !many
    }
}

/// One pawn, rook or queen of either side keeps a game alive, and so do two knights or bishops
/// wherever they stand; kings alone, or with one knight or bishop between them, do not.
pub proof fn law_what_keeps_a_game_alive(b: Seq<Cell>, s: int, t: int)
    requires
        0 <= s < 64,
        0 <= t < 64,
    ensures
        b[s] is Some && (b[s]->0.kind == PieceType::Pawn || b[s]->0.kind == PieceType::Rook || b[s]->0.kind
            == PieceType::Queen) ==> !dead(b),
        s != t && b[s] is Some && b[t] is Some && (b[s]->0.kind == PieceType::Knight || b[s]->0.kind == PieceType::Bishop) && (
        b[t]->0.kind == PieceType::Knight || b[t]->0.kind == PieceType::Bishop) ==> !dead(b),
        (forall|x: int|
            0 <= x < 64 && x != s ==> (#[trigger] b[x]) is None || b[x]->0.kind == PieceType::King) && (b[s] is None || b[s]->0.kind
            == PieceType::King || b[s]->0.kind == PieceType::Knight || b[s]->0.kind == PieceType::Bishop) ==> dead(b),
{
    if s != t && b[s] is Some && b[t] is Some && (b[s]->0.kind == PieceType::Knight || b[s]->0.kind == PieceType::Bishop) && (
    b[t]->0.kind == PieceType::Knight || b[t]->0.kind == PieceType::Bishop) {
        assert(minor(b, s) && minor(b, t));
    }
    if b[s] is Some && (b[s]->0.kind == PieceType::Pawn || b[s]->0.kind == PieceType::Rook || b[s]->0.kind == PieceType::Queen) {
        assert(heavy(b, s));
    }
    if (forall|x: int| 0 <= x < 64 && x != s ==> (#[trigger] b[x]) is None || b[x]->0.kind == PieceType::King) && (b[s] is None
        || b[s]->0.kind == PieceType::King || b[s]->0.kind == PieceType::Knight || b[s]->0.kind == PieceType::Bishop) {
        assert forall|x: int| !#[trigger] heavy(b, x) by {
            if heavy(b, x) && x != s {
                assert(b[x] is None || b[x]->0.kind == PieceType::King);
            }
        }
        assert forall|x: int, y: int| #[trigger] minor(b, x) && #[trigger] minor(b, y) implies x == y by {
            if x != s {
                assert(b[x] is None || b[x]->0.kind == PieceType::King);
            }
            if y != s {
                assert(b[y] is None || b[y]->0.kind == PieceType::King);
            }
        }
    }
}

} // verus!
