//! What the rules of chess say of a placement of men: who attacks what, and what the
//! board looks like after a move.

use vstd::prelude::*;

use crate::chess::bitboard::Bitboard;
use crate::chess::geom;
use crate::chess::moves::Move;
use crate::chess::types::{Color, PieceType};

verus! {

/// A man: its side and its kind.
#[derive(Clone, Copy, Debug, PartialEq, Eq, Structural, Hash)]
pub struct Man {
    pub color: Color,
    pub kind: PieceType,
}

/// What stands on a square.
pub type Cell = Option<Man>;

/// The man of side `c` and kind `pt`.
pub open spec fn man(c: Color, pt: PieceType) -> Cell {
    Some(Man { color: c, kind: pt })
}

/// A placement names the man on each of the sixty-four squares.
pub open spec fn placement(b: Seq<Cell>) -> bool {
    &&& b.len() == 64
    &&& forall|s: int| 0 <= s < 64 && (#[trigger] b[s]) is Some ==> b[s]->0.kind != PieceType::Empty
}

/// Whether a man of side `c` stands on `s`.
pub open spec fn owned(b: Seq<Cell>, s: int, c: Color) -> bool {
    geom::on_board(s) && b[s] is Some && b[s]->0.color == c
}

/// Whether a man stands on `s`.
pub open spec fn occupied(b: Seq<Cell>, s: int) -> bool {
    geom::on_board(s) && b[s] is Some
}

/// Whether `occ` is the set of occupied squares of `b`.
pub open spec fn occupancy_of(occ: Bitboard, b: Seq<Cell>) -> bool {
    forall|s: int| #[trigger] occ.has(s) <==> occupied(b, s)
}

/// No man stands strictly between `a` and `t`.
pub open spec fn open_between(b: Seq<Cell>, a: int, t: int) -> bool {
    forall|s: int| geom::between(a, t, s) ==> (#[trigger] b[s]) is None
}

/// Whether a man of side `c` and kind `pt` attacks `t` from `a`.
pub open spec fn strikes(b: Seq<Cell>, c: Color, pt: PieceType, a: int, t: int) -> bool {
    match pt {
        PieceType::Pawn => geom::pawn_hit(c, a, t),
        PieceType::Knight => geom::knight_hop(a, t),
        PieceType::Bishop => geom::diagonal(a, t) && open_between(b, a, t),
        PieceType::Rook => geom::straight(a, t) && open_between(b, a, t),
        PieceType::Queen => geom::aligned(a, t) && open_between(b, a, t),
        PieceType::King => geom::king_step(a, t),
        PieceType::Empty => false,
    }
}

/// [`strikes`], with the men in the way given as a set of squares.
pub open spec fn reaches(occ: Bitboard, c: Color, pt: PieceType, a: int, t: int) -> bool {
    match pt {
        PieceType::Pawn => geom::pawn_hit(c, a, t),
        PieceType::Knight => geom::knight_hop(a, t),
        PieceType::Bishop => geom::diagonal(a, t) && geom::clear(occ, a, t),
        PieceType::Rook => geom::straight(a, t) && geom::clear(occ, a, t),
        PieceType::Queen => geom::aligned(a, t) && geom::clear(occ, a, t),
        PieceType::King => geom::king_step(a, t),
        PieceType::Empty => false,
    }
}

/// Whether the man on `a` attacks `t`.
pub open spec fn attacks(b: Seq<Cell>, a: int, t: int) -> bool {
    b[a] is Some && strikes(b, b[a]->0.color, b[a]->0.kind, a, t)
}

/// Whether a man of side `by` on `a` attacks `t`.
pub open spec fn hits(b: Seq<Cell>, by: Color, a: int, t: int) -> bool {
    owned(b, a, by) && attacks(b, a, t)
}

/// Whether side `by` attacks `t`.
pub open spec fn attacked(b: Seq<Cell>, by: Color, t: int) -> bool {
    exists|a: int| #[trigger] hits(b, by, a, t)
}

/// Where the king goes when it castles from `k` with the rook on `r`.
pub open spec fn castle_king(k: int, r: int) -> int {
    geom::rank(k) * 8 + (if r > k {
        6
    } else {
        2int
    })
}

/// Where the rook goes when the king castles from `k` with the rook on `r`.
pub open spec fn castle_rook(k: int, r: int) -> int {
    geom::rank(k) * 8 + (if r > k {
        5
    } else {
        3int
    })
}

/// The square of the pawn that an en passant capture on `t` takes.
pub open spec fn ep_victim(c: Color, t: int) -> int {
    t - 8 * c.up()
}

/// The board after castling.
pub open spec fn after_castle(b: Seq<Cell>, c: Color, k: int, r: int) -> Seq<Cell> {
    b.update(k, None).update(r, None).update(castle_king(k, r), man(c, PieceType::King)).update(
        castle_rook(k, r),
        man(c, PieceType::Rook),
    )
}

/// The board after side `c` plays `mv`.
pub open spec fn after(b: Seq<Cell>, c: Color, mv: Move) -> Seq<Cell> {
    if mv.castles() {
        after_castle(b, c, mv.src(), mv.dst())
    } else if mv.takes_ep() {
        b.update(mv.src(), None).update(mv.dst(), b[mv.src()]).update(ep_victim(c, mv.dst()), None)
    } else if mv.promotes() {
        b.update(mv.src(), None).update(mv.dst(), man(c, mv.promoted()))
    } else {
        b.update(mv.src(), None).update(mv.dst(), b[mv.src()])
    }
}

/// Where side `c`'s king, on `k`, stands after `mv`.
pub open spec fn king_after(k: int, mv: Move) -> int {
    if mv.src() != k {
        k
    } else if mv.castles() {
        castle_king(k, mv.dst())
    } else {
        mv.dst()
    }
}

/// The one man on `s` blocks the line from `a` to the king's square `k`.
pub open spec fn sole_blocker(b: Seq<Cell>, a: int, k: int, s: int) -> bool {
    &&& geom::between(a, k, s)
    &&& b[s] is Some
    &&& forall|x: int| geom::between(a, k, x) && x != s ==> (#[trigger] b[x]) is None
}

/// A slider of side `by` on `a` that would attack `k` if nothing stood between.
pub open spec fn sniper(b: Seq<Cell>, by: Color, a: int, k: int) -> bool {
    &&& owned(b, a, by)
    &&& (geom::diagonal(a, k) && b[a]->0.kind.is_diag()) || (geom::straight(a, k) && b[a]->0.kind.is_ortho())
}

/// The man on `s` is all that keeps some slider of side `by` off square `k`.
pub open spec fn blocks(b: Seq<Cell>, by: Color, k: int, s: int) -> bool {
    exists|a: int| #[trigger] sniper(b, by, a, k) && sole_blocker(b, a, k, s)
}

/// Clear lines on the occupancy are open lines on the board.
pub proof fn lemma_clear(b: Seq<Cell>, occ: Bitboard, a: int, t: int)
    requires
        occupancy_of(occ, b),
    ensures
        geom::clear(occ, a, t) <==> open_between(b, a, t),
{
    if geom::clear(occ, a, t) {
        assert forall|s: int| geom::between(a, t, s) implies (#[trigger] b[s]) is None by {
            assert(!occ.has(s));
        }
    }
    if open_between(b, a, t) {
        assert forall|s: int| #[trigger] occ.has(s) implies !geom::between(a, t, s) by {
            assert(b[s] is Some);
        }
    }
}

/// The two ways to say what stands in the way agree.
pub proof fn lemma_reaches(b: Seq<Cell>, occ: Bitboard)
    requires
        occupancy_of(occ, b),
    ensures
        forall|c: Color, pt: PieceType, a: int, t: int| #[trigger]
            strikes(b, c, pt, a, t) == reaches(occ, c, pt, a, t),
{
    assert forall|c: Color, pt: PieceType, a: int, t: int| #[trigger]
        strikes(b, c, pt, a, t) == reaches(occ, c, pt, a, t) by {
        lemma_clear(b, occ, a, t);
    }
}

/// A line is clear in both directions or in neither.
pub proof fn lemma_clear_symmetric(occ: Bitboard, a: int, t: int)
    requires
        geom::on_board(a),
        geom::on_board(t),
    ensures
        geom::clear(occ, a, t) == geom::clear(occ, t, a),
{
    assert forall|s: int| geom::between(a, t, s) == #[trigger] geom::between(t, a, s) by {
        geom::lemma_between_symmetric(a, t, s);
    }
}

/// A line is open in both directions or in neither.
pub proof fn lemma_open_symmetric(b: Seq<Cell>, a: int, t: int)
    requires
        geom::on_board(a),
        geom::on_board(t),
    ensures
        open_between(b, a, t) == open_between(b, t, a),
{
    assert forall|s: int| geom::between(a, t, s) == #[trigger] geom::between(t, a, s) by {
        geom::lemma_between_symmetric(a, t, s);
    }
}

/// Attacks are mutual, but for pawns, whose attacks the pawns of the other side return; a queen
/// attacks what a rook or a bishop attacks; and no man attacks its own square.
pub proof fn law_attacks_are_mutual(b: Seq<Cell>, c: Color, d: Color, pt: PieceType, a: int, t: int)
    requires
        geom::on_board(a),
        geom::on_board(t),
    ensures
        pt != PieceType::Pawn ==> strikes(b, c, pt, a, t) == strikes(b, d, pt, t, a),
        strikes(b, c, PieceType::Pawn, a, t) == strikes(b, c.other(), PieceType::Pawn, t, a),
        strikes(b, c, PieceType::Queen, a, t) == (strikes(b, c, PieceType::Rook, a, t) || strikes(b, c, PieceType::Bishop, a, t)),
        !(strikes(b, c, PieceType::Rook, a, t) && strikes(b, c, PieceType::Bishop, a, t)),
        !strikes(b, c, pt, a, a),
        strikes(b, c, PieceType::King, a, t) ==> !strikes(b, c, PieceType::Knight, a, t) && strikes(b, c, PieceType::Queen, a, t),
{
    lemma_open_symmetric(b, a, t);
    if strikes(b, c, PieceType::King, a, t) {
        assert forall|s: int| geom::between(a, t, s) implies (#[trigger] b[s]) is None by {
            assert(false);
        }
    }
}

/// A pawn attacks one step forward to either side: White's up the board and Black's down.
pub proof fn law_pawns_attack_forwards(b: Seq<Cell>, a: int, t: int)
    requires
        geom::on_board(a),
        geom::on_board(t),
    ensures
        strikes(b, Color::White, PieceType::Pawn, a, t) ==> t == a + 7 || t == a + 9,
        strikes(b, Color::Black, PieceType::Pawn, a, t) ==> t == a - 7 || t == a - 9,
        geom::file(a) > 0 && t == a + 7 ==> strikes(b, Color::White, PieceType::Pawn, a, t),
        geom::file(a) < 7 && t == a + 9 ==> strikes(b, Color::White, PieceType::Pawn, a, t),
        geom::file(a) < 7 && t == a - 7 ==> strikes(b, Color::Black, PieceType::Pawn, a, t),
        geom::file(a) > 0 && t == a - 9 ==> strikes(b, Color::Black, PieceType::Pawn, a, t),
{
}

/// A man in the way cuts a line: past it nothing is attacked.
pub proof fn law_men_in_the_way_cut_lines(b: Seq<Cell>, c: Color, pt: PieceType, a: int, t: int, s: int)
    requires
        geom::between(a, t, s),
        b[s] is Some,
        pt.is_diag() || pt.is_ortho(),
    ensures
        !strikes(b, c, pt, a, t),
{
}

/// The king castles to the file of its wing's knight, towards the rook, which comes to stand on
/// the other side of it, on the same rank.
pub proof fn law_castling_brings_king_and_rook_together(k: int, r: int)
    requires
        geom::on_board(k),
        geom::on_board(r),
        k != r,
    ensures
        geom::rank(castle_king(k, r)) == geom::rank(k),
        geom::rank(castle_rook(k, r)) == geom::rank(k),
        r > k ==> geom::file(castle_king(k, r)) == 6 && castle_rook(k, r) == castle_king(k, r) - 1,
        r < k ==> geom::file(castle_king(k, r)) == 2 && castle_rook(k, r) == castle_king(k, r) + 1,
{
}

/// A pawn that is taken in passing stands beside the pawn that takes it, on the file it goes to.
pub proof fn law_the_pawn_taken_in_passing_stands_beside(c: Color, f: int, t: int)
    requires
        geom::on_board(f),
        geom::on_board(t),
        geom::pawn_hit(c, f, t),
    ensures
        geom::rank(ep_victim(c, t)) == geom::rank(f),
        geom::file(ep_victim(c, t)) == geom::file(t),
        geom::file_gap(ep_victim(c, t), f) == 1,
{
}

/// A move takes its man from one square to the other, and no other square changes; a promotion
/// puts the new man there.
pub proof fn law_a_move_changes_its_own_squares(b: Seq<Cell>, c: Color, mv: Move, s: int)
    requires
        b.len() == 64,
        geom::on_board(s),
        mv.src() != mv.dst(),
        !mv.castles(),
        mv.takes_ep() ==> geom::on_board(ep_victim(c, mv.dst())) && ep_victim(c, mv.dst()) != mv.src(),
    ensures
        after(b, c, mv)[mv.src()] is None,
        !mv.promotes() ==> after(b, c, mv)[mv.dst()] == b[mv.src()],
        mv.promotes() ==> after(b, c, mv)[mv.dst()] == man(c, mv.promoted()),
        mv.takes_ep() ==> after(b, c, mv)[ep_victim(c, mv.dst())] is None,
        s != mv.src() && s != mv.dst() && !(mv.takes_ep() && s == ep_victim(c, mv.dst())) ==> after(b, c, mv)[s] == b[s],
        after(b, c, mv).len() == 64,
{
}

/// Castling moves king and rook and nothing else.
pub proof fn law_castling_moves_king_and_rook(b: Seq<Cell>, c: Color, mv: Move, s: int)
    requires
        b.len() == 64,
        geom::on_board(s),
        mv.src() != mv.dst(),
        mv.castles(),
    ensures
        after(b, c, mv)[castle_king(mv.src(), mv.dst())] == man(c, PieceType::King),
        after(b, c, mv)[castle_rook(mv.src(), mv.dst())] == man(c, PieceType::Rook),
        s != mv.src() && s != mv.dst() && s != castle_king(mv.src(), mv.dst()) && s != castle_rook(mv.src(), mv.dst()) ==> after(
            b,
            c,
            mv,
        )[s] == b[s],
        (s == mv.src() || s == mv.dst()) && s != castle_king(mv.src(), mv.dst()) && s != castle_rook(mv.src(), mv.dst()) ==> after(
            b,
            c,
            mv,
        )[s] is None,
        king_after(mv.src(), mv) == castle_king(mv.src(), mv.dst()),
{
    law_castling_brings_king_and_rook_together(mv.src(), mv.dst());
}

} // verus!
