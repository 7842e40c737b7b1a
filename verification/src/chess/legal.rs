//! Which moves a position admits.

use vstd::prelude::*;

use crate::chess::geom;
use crate::chess::moves::Move;
use crate::chess::position::{self, Position};
use crate::chess::rules;
use crate::chess::types::{Color, PieceType, Square};

verus! {

/// The smaller of two numbers.
pub open spec fn lesser(a: int, b: int) -> int {
    if a < b {
        a
    } else {
        b
    }
}

/// The larger of two numbers.
pub open spec fn greater(a: int, b: int) -> int {
    if a < b {
        b
    } else {
        a
    }
}

/// Whether castling from `k` with the rook on `r` crosses or enters square `s`.
pub open spec fn corridor(k: int, r: int, s: int) -> bool {
    let kd = rules::castle_king(k, r);
    let rd = rules::castle_rook(k, r);
    lesser(lesser(k, r), lesser(kd, rd)) <= s <= greater(greater(k, r), greater(kd, rd))
}

/// Whether the king, castling from `k` with the rook on `r`, stands on `s` at some time.
pub open spec fn king_walk(k: int, r: int, s: int) -> bool {
    let kd = rules::castle_king(k, r);
    lesser(k, kd) <= s <= greater(k, kd)
}

/// Whether side `c` still holds the right to castle with the rook on `r`.
pub open spec fn right_held(p: Position, c: Color, r: int) -> bool {
    exists|i: int|
        0 <= i < 4 && position::castling_side(i) == c && #[trigger] p.castling_rights[i] && p.castling_rooks[i].at() == r
}

/// Whether the side to move may castle from `k` with the rook on `r`.
pub open spec fn castle_allowed(p: Position, k: int, r: int) -> bool {
    let b = p.board();
    let c = p.stm;
    &&& b[k] == rules::man(c, PieceType::King)
    &&& b[r] == rules::man(c, PieceType::Rook)
    &&& right_held(p, c, r)
    &&& forall|s: int| corridor(k, r, s) && s != k && s != r ==> (#[trigger] b[s]) is None
    &&& forall|s: int| #[trigger] king_walk(k, r, s) ==> !rules::attacked(b, c.other(), s)
    &&& !rules::attacked(rules::after_castle(b, c, k, r), c.other(), rules::castle_king(k, r))
}

/// Whether `mv` is a pawn move of the side to move, its own king's safety aside.
pub open spec fn pawn_move(p: Position, mv: Move) -> bool {
    let b = p.board();
    let c = p.stm;
    let f = mv.src();
    let t = mv.dst();
    &&& mv.promotes() <==> geom::rank(t) == c.last_rank()
    &&& if mv.takes_ep() {
        p.en_passant == Some(Square(t as u8)) && geom::pawn_hit(c, f, t)
    } else if mv.double_push() {
        &&& geom::rank(f) == c.home_rank()
        &&& t == f + 16 * c.up()
        &&& b[f + 8 * c.up()] is None
        &&& b[t] is None
    } else if mv.captures() {
        rules::owned(b, t, c.other()) && geom::pawn_hit(c, f, t)
    } else {
        t == f + 8 * c.up() && b[t] is None
    }
}

/// Whether `mv` is a move of a knight, bishop, rook, queen or king of the side to move,
/// its own king's safety aside.
pub open spec fn piece_move(p: Position, mv: Move) -> bool {
    &&& !mv.promotes() && !mv.takes_ep() && !mv.double_push()
    &&& mv.captures() <==> rules::owned(p.board(), mv.dst(), p.stm.other())
    &&& rules::attacks(p.board(), mv.src(), mv.dst())
}

/// Whether the side to move can play `mv`, its own king's safety aside. Castling is held
/// to all of its conditions here.
pub open spec fn pseudo_legal(p: Position, mv: Move) -> bool {
    let b = p.board();
    if mv.castles() {
        castle_allowed(p, mv.src(), mv.dst())
    } else {
        &&& rules::owned(b, mv.src(), p.stm)
        &&& !rules::owned(b, mv.dst(), p.stm)
        &&& if b[mv.src()]->0.kind == PieceType::Pawn {
            pawn_move(p, mv)
        } else {
            piece_move(p, mv)
        }
    }
}

/// Whether the mover's king is out of the enemy's reach once `mv` is played.
pub open spec fn king_safe_after(p: Position, mv: Move) -> bool {
    !rules::attacked(
        rules::after(p.board(), p.stm, mv),
        p.stm.other(),
        rules::king_after(position::king_of(p.board(), p.stm), mv),
    )
}

/// Whether `mv` is legal.
pub open spec fn legal(p: Position, mv: Move) -> bool {
    pseudo_legal(p, mv) && king_safe_after(p, mv)
}

/// The castling rights left after `mv`.
pub open spec fn rights_after(p: Position, mv: Move) -> Seq<bool> {
    Seq::new(
        4,
        |i: int|
            {
                &&& p.castling_rights[i]
                &&& mv.src() != p.castling_rooks[i].at()
                &&& mv.dst() != p.castling_rooks[i].at()
                &&& !(position::castling_side(i) == p.stm && p.board()[mv.src()]->0.kind == PieceType::King)
            },
    )
}

/// The en passant square `mv` leaves behind.
pub open spec fn ep_after(p: Position, mv: Move) -> Option<Square> {
    if mv.double_push() {
        Some(Square((mv.src() + 8 * p.stm.up()) as u8))
    } else {
        None
    }
}

/// A counter one further on, as far as it goes.
pub open spec fn ticked(n: u32) -> int {
    if n == u32::MAX {
        n as int
    } else {
        n + 1
    }
}

/// The plies since the last capture or pawn move, once `mv` is played in `p`.
pub open spec fn clock_after(p: Position, mv: Move) -> int {
    if irreversible(p, mv) {
        0
    } else {
        ticked(p.halfmove_clock)
    }
}

/// The number of the move that follows a move in `p`.
pub open spec fn number_after(p: Position) -> int {
    if p.stm == Color::Black {
        ticked(p.fullmove_number)
    } else {
        p.fullmove_number as int
    }
}

/// Whether `mv` restarts the fifty-move count.
pub open spec fn irreversible(p: Position, mv: Move) -> bool {
    mv.captures() || p.board()[mv.src()]->0.kind == PieceType::Pawn
}

/// Rights to castle are only ever lost: both by a move of the king, one by a move of its rook or
/// a capture on the rook's square, and none by any other move.
pub proof fn law_rights_are_only_lost(p: Position, mv: Move, i: int)
    requires
        0 <= i < 4,
    ensures
        rights_after(p, mv).len() == 4,
        rights_after(p, mv)[i] ==> p.castling_rights[i],
        p.board()[mv.src()]->0.kind == PieceType::King && position::castling_side(i) == p.stm ==> !rights_after(p, mv)[i],
        mv.src() == p.castling_rooks[i].at() || mv.dst() == p.castling_rooks[i].at() ==> !rights_after(p, mv)[i],
        p.castling_rights[i] && mv.src() != p.castling_rooks[i].at() && mv.dst() != p.castling_rooks[i].at() && p.board()[mv.src()]->0.kind
            != PieceType::King ==> rights_after(p, mv)[i],
        p.castling_rights[i] && mv.src() != p.castling_rooks[i].at() && mv.dst() != p.castling_rooks[i].at()
            && position::castling_side(i) != p.stm ==> rights_after(p, mv)[i],
{
}

/// The first two rights are White's and the others Black's.
pub proof fn law_rights_belong_to_their_sides()
    ensures
        position::castling_side(0) == Color::White && position::castling_side(1) == Color::White,
        position::castling_side(2) == Color::Black && position::castling_side(3) == Color::Black,
        forall|c: Color| position::back_rank(c) == #[trigger] c.home_rank() - c.up(),
        forall|c: Color| position::back_rank(c.other()) == #[trigger] c.last_rank(),
{
}

/// A pawn can be taken in passing exactly after it has gone two steps, on the square between.
pub proof fn law_a_double_push_can_be_taken_in_passing(p: Position, mv: Move)
    requires
        pseudo_legal(p, mv),
        rules::owned(p.board(), mv.src(), p.stm),
        p.board()[mv.src()]->0.kind == PieceType::Pawn,
    ensures
        ep_after(p, mv) is Some <==> mv.double_push(),
        mv.double_push() ==> 2 * (ep_after(p, mv)->0).at() == mv.src() + mv.dst(),
        mv.double_push() ==> geom::rank((ep_after(p, mv)->0).at()) == p.stm.home_rank() + p.stm.up(),
        mv.double_push() ==> rules::ep_victim(p.stm.other(), (ep_after(p, mv)->0).at()) == mv.dst(),
{
}

/// The clock of a draw starts again with every capture and every pawn move and counts all others;
/// moves are numbered by those of Black.
pub proof fn law_clocks_count_plies_and_moves(p: Position, mv: Move)
    requires
        p.halfmove_clock < u32::MAX,
        p.fullmove_number < u32::MAX,
    ensures
        mv.captures() ==> clock_after(p, mv) == 0,
        p.board()[mv.src()]->0.kind == PieceType::Pawn ==> clock_after(p, mv) == 0,
        !mv.captures() && p.board()[mv.src()]->0.kind != PieceType::Pawn ==> clock_after(p, mv) == p.halfmove_clock + 1,
        p.stm == Color::White ==> number_after(p) == p.fullmove_number,
        p.stm == Color::Black ==> number_after(p) == p.fullmove_number + 1,
{
}

/// Castling is held to empty squares on the way, and neither from, through nor into check.
pub proof fn law_castling_is_safe_and_free(p: Position, mv: Move, s: int)
    requires
        pseudo_legal(p, mv),
        mv.castles(),
    ensures
        !rules::attacked(p.board(), p.stm.other(), mv.src()),
        geom::rank(mv.src()) == geom::rank(s) && geom::strictly_within(mv.src(), s, mv.dst()) ==> p.board()[s] is None,
        geom::strictly_within(mv.src(), s, rules::castle_king(mv.src(), mv.dst())) ==> !rules::attacked(
            p.board(),
            p.stm.other(),
            s,
        ),
        !rules::attacked(p.board(), p.stm.other(), rules::castle_king(mv.src(), mv.dst())),
        exists|i: int| 0 <= i < 4 && #[trigger] p.castling_rights[i] && position::castling_side(i) == p.stm,
{
    let kd = rules::castle_king(mv.src(), mv.dst());
    assert(king_walk(mv.src(), mv.dst(), mv.src()));
    assert(king_walk(mv.src(), mv.dst(), kd));
    if geom::strictly_within(mv.src(), s, kd) {
        assert(king_walk(mv.src(), mv.dst(), s));
    }
    if geom::strictly_within(mv.src(), s, mv.dst()) {
        assert(corridor(mv.src(), mv.dst(), s));
    }
}

/// No legal move leaves the mover's king to be taken, none goes onto one of its own men, and each
/// moves one of its own men.
pub proof fn law_legal_moves_are_safe_moves_of_own_men(p: Position, mv: Move)
    requires
        legal(p, mv),
        !mv.castles(),
    ensures
        rules::owned(p.board(), mv.src(), p.stm),
        !rules::owned(p.board(), mv.dst(), p.stm),
        king_safe_after(p, mv),
        p.board()[mv.src()]->0.kind != PieceType::Pawn ==> rules::attacks(p.board(), mv.src(), mv.dst()),
        mv.captures() && !mv.takes_ep() ==> rules::owned(p.board(), mv.dst(), p.stm.other()),
        !mv.captures() ==> !rules::owned(p.board(), mv.dst(), p.stm.other()),
        mv.promotes() ==> p.board()[mv.src()]->0.kind == PieceType::Pawn && geom::rank(mv.dst()) == p.stm.last_rank(),
{
}

/// The lesser and the greater of two numbers are the two of them, in order.
pub proof fn law_lesser_and_greater(a: int, b: int)
    ensures
        lesser(a, b) <= greater(a, b),
        lesser(a, b) + greater(a, b) == a + b,
        lesser(a, b) == a || lesser(a, b) == b,
{
}

/// Castling goes over empty squares: all that the king crosses or comes to stand on, and all that
/// the rook does, but for the two themselves.
pub proof fn law_castling_goes_over_empty_squares(p: Position, mv: Move, s: int)
    requires
        pseudo_legal(p, mv),
        mv.castles(),
        s != mv.src() && s != mv.dst(),
    ensures
        s == rules::castle_king(mv.src(), mv.dst()) || s == rules::castle_rook(mv.src(), mv.dst()) ==> p.board()[s] is None,
        geom::strictly_within(mv.src(), s, rules::castle_king(mv.src(), mv.dst())) ==> p.board()[s] is None,
        geom::strictly_within(mv.dst(), s, rules::castle_rook(mv.src(), mv.dst())) ==> p.board()[s] is None,
{
    assert(corridor(mv.src(), mv.dst(), s) ==> p.board()[s] is None);
}

/// A pawn that does not capture goes straight forward onto an empty square, one step, or two from
/// where it started over an empty one.
pub proof fn law_pawns_push_straight_forward(p: Position, mv: Move)
    requires
        pseudo_legal(p, mv),
        !mv.castles(),
        !mv.captures(),
        p.board()[mv.src()]->0.kind == PieceType::Pawn,
    ensures
        p.board()[mv.dst()] is None,
        mv.dst() == mv.src() + 8 * p.stm.up() || mv.dst() == mv.src() + 16 * p.stm.up(),
        mv.dst() == mv.src() + 16 * p.stm.up() ==> geom::rank(mv.src()) == p.stm.home_rank() && p.board()[mv.src() + 8
            * p.stm.up()] is None,
        mv.promotes() <==> geom::rank(mv.dst()) == p.stm.last_rank(),
{
}

} // verus!
