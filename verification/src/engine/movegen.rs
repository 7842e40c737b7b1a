//! Pseudo-legal move generation and strict legality filtering.
//!
//! Moves are generated in bulk, obliviously to pins and checks, and filtered move by move
//! against the position's pins and checks.

use vstd::prelude::*;

use crate::chess::attacks::{atk_bishop, atk_king, atk_knight, atk_pawn, atk_rook, between_bb, line_bb};
use crate::chess::bitboard::{self, Bitboard, Direction};
use crate::chess::geom;
use crate::chess::legal;
use crate::chess::moves::{Move, MoveList};
use crate::chess::position::{self, Position, ROOK_B_KS, ROOK_B_QS, ROOK_W_KS, ROOK_W_QS};
use crate::chess::rules;
use crate::chess::safety;
use crate::chess::types::{Color, PieceType, Square};

verus! {

/// Whether the side to move can play `mv`, its own king's safety aside.
///
/// This is what stands between the board and a move read out of a table under a colliding
/// key: origin, attack pattern and every flag are held against the position. Pins and
/// checks are `is_legal`'s business.
pub fn is_pseudo_legal(board: &Position, mv: Move) -> (r: bool)
    requires
        board.wf(),
    ensures
        r == legal::pseudo_legal(*board, mv),
{
    let from = mv.from();
    let to = mv.to();
    let stm = board.stm;
    let us = board.side(stm);
    let them = board.side(stm.opposite());
    let occ = board.occupancy();
    if !us.check_bit(from) {
        return false;
    }
    if mv.is_castling() {
        return board.is_castle_move_legal(from, to);
    }
    if us.check_bit(to) {
        return false;
    }
    let piece = board.piece_at(from);
    // The victim of an en passant capture stands beside `to`, never on it.
    let enemy_on_to = them.check_bit(to);
    if mv.is_capture() != enemy_on_to && !mv.is_en_passant() {
        proof {
            if board.board()[mv.src()]->0.kind == PieceType::Pawn && !mv.captures() {
                assert(rules::owned(board.board(), mv.dst(), stm.other()));
            }
        }
        return false;
    }
    if piece != PieceType::Pawn && (mv.is_promotion() || mv.is_en_passant() || mv.is_double_push()) {
        return false;
    }
    proof {
        rules::lemma_clear(board.board(), occ, from.at(), to.at());
    }
    match piece {
        PieceType::Pawn => pawn_move_fits(board, mv, occ),
        PieceType::Knight => atk_knight(from).check_bit(to),
        PieceType::Bishop => atk_bishop(from, occ).check_bit(to),
        PieceType::Rook => atk_rook(from, occ).check_bit(to),
        PieceType::Queen => atk_bishop(from, occ).or(atk_rook(from, occ)).check_bit(to),
        PieceType::King => atk_king(from).check_bit(to),
        PieceType::Empty => false,
    }
}

/// The pawn's part of [`is_pseudo_legal`].
fn pawn_move_fits(board: &Position, mv: Move, occ: Bitboard) -> (r: bool)
    requires
        board.wf(),
        rules::occupancy_of(occ, board.board()),
        board.board()[mv.src()] == rules::man(board.stm, PieceType::Pawn),
        !rules::owned(board.board(), mv.dst(), board.stm),
        mv.captures() == rules::owned(board.board(), mv.dst(), board.stm.other()) || mv.takes_ep(),
    ensures
        r == legal::pawn_move(*board, mv),
{
    let from = mv.from();
    let to = mv.to();
    let stm = board.stm;
    let (start_rank, last_rank): (u8, u8) = if stm == Color::White {
        (1, 7)
    } else {
        (6, 0)
    };
    // A promotion flag belongs exactly on the last rank.
    if mv.is_promotion() != (to.rank() == last_rank) {
        return false;
    }
    if mv.is_en_passant() {
        let on_ep = match board.en_passant {
            Some(t) => t == to,
            None => false,
        };
        return on_ep && atk_pawn(from, stm).check_bit(to);
    }
    let up: i8 = match stm {
        Color::White => 8,
        Color::Black => -8,
    };
    let one: i8 = from.0 as i8 + up;
    if mv.is_double_push() {
        // The rank is tested first: the square between only exists once it holds.
        return from.rank() == start_rank && to.0 as i8 == one + up && !occ.check_bit(Square(one as u8)) && !occ.check_bit(
            to,
        );
    }
    if mv.is_capture() {
        return atk_pawn(from, stm).check_bit(to);
    }
    to.0 as i8 == one && !occ.check_bit(to)
}

/// Whether a pseudo-legal move leaves the mover's king safe.
///
/// `ksq` is the mover's king, `pinned` the men that alone keep an enemy slider off it,
/// `checkers` the enemy men that attack it and `opp` the enemy.
pub fn is_legal(board: &Position, mv: Move, ksq: Square, pinned: Bitboard, checkers: Bitboard, opp: Color) -> (r: bool)
    requires
        board.wf(),
        legal::pseudo_legal(*board, mv),
        ksq.ok(),
        ksq.at() == position::king_of(board.board(), board.stm),
        opp == board.stm.other(),
        forall|s: int| #[trigger] pinned.has(s) <==> rules::blocks(board.board(), opp, ksq.at(), s),
        forall|a: int| #[trigger] checkers.has(a) <==> rules::hits(board.board(), opp, a, ksq.at()),
    ensures
        r == legal::king_safe_after(*board, mv),
{
    let from = mv.from();
    let to = mv.to();
    let ghost b = board.board();
    let ghost k = ksq.at();
    proof {
        assert(position::king_at(b, board.stm, k));
    }
    if from == ksq {
        if mv.is_castling() {
            proof {
                assert(legal::king_walk(k, mv.dst(), k));
                assert forall|a: int| !#[trigger] checkers.has(a) by {
                    if checkers.has(a) {
                        assert(rules::attacked(b, opp, k));
                    }
                }
            }
            return checkers.is_empty();
        }
        proof {
            safety::lemma_king_step(*board, mv);
        }
        // The king leaves the board for the test: it must not hide behind itself.
        return !board.is_attacked(to, opp, from);
    }
    proof {
        if mv.castles() {
            assert(b[mv.src()] == rules::man(board.stm, PieceType::King));
        }
    }
    if checkers.more_than_one() {
        proof {
            let (x, y): (int, int) = choose|x: int, y: int| #[trigger]
                checkers.has(x) && #[trigger] checkers.has(y) && x != y;
            if mv.takes_ep() {
                safety::lemma_ep_double_check(*board, mv, x, y);
            } else {
                safety::lemma_plain_double_check(*board, mv, x, y);
            }
        }
        return false;
    }
    if mv.is_en_passant() {
        return is_ep_legal(board, mv, ksq, pinned, checkers, opp);
    }
    proof {
        safety::lemma_plain_move(*board, mv);
    }
    if pinned.check_bit(from) && !line_bb(from, to).check_bit(ksq) {
        return false;
    }
    if checkers.is_empty() {
        proof {
            assert forall|a: int| #[trigger] rules::hits(b, opp, a, k) implies mv.dst() == a || geom::between(
                a,
                k,
                mv.dst(),
            ) by {
                assert(checkers.has(a));
            }
        }
        return true;
    }
    let checker = checkers.lsb();
    proof {
        assert forall|a: int| #[trigger] rules::hits(b, opp, a, k) implies a == checker.at() by {
            assert(checkers.has(a));
            assert(checkers.has(checker.at()));
        }
        assert(rules::hits(b, opp, checker.at(), k));
        geom::lemma_between_symmetric(k, checker.at(), mv.dst());
    }
    to == checker || between_bb(ksq, checker).check_bit(to)
}

/// The en passant part of [`is_legal`]: two pawns leave one rank at once, so the king can
/// be uncovered along it, or along a diagonal through the captured pawn.
#[verifier::rlimit(40)]
#[verifier::spinoff_prover]
fn is_ep_legal(board: &Position, mv: Move, ksq: Square, pinned: Bitboard, checkers: Bitboard, opp: Color) -> (r: bool)
    requires
        board.wf(),
        legal::pseudo_legal(*board, mv),
        mv.takes_ep(),
        ksq.ok(),
        ksq.at() == position::king_of(board.board(), board.stm),
        mv.src() != ksq.at(),
        opp == board.stm.other(),
        forall|s: int| #[trigger] pinned.has(s) <==> rules::blocks(board.board(), opp, ksq.at(), s),
        forall|a: int| #[trigger] checkers.has(a) <==> rules::hits(board.board(), opp, a, ksq.at()),
        forall|x: int, y: int| #[trigger] checkers.has(x) && #[trigger] checkers.has(y) ==> x == y,
    ensures
        r == legal::king_safe_after(*board, mv),
{
    let from = mv.from();
    let to = mv.to();
    let ghost b = board.board();
    let ghost k = ksq.at();
    let ghost b2 = rules::after(b, board.stm, mv);
    proof {
        assert(position::king_at(b, board.stm, k));
        assert(board.en_passant matches Some(q) && q.at() == mv.dst());
    }
    // The captured pawn is one rank behind the destination.
    let victim = match board.stm {
        Color::White => Square(to.0 - 8),
        Color::Black => Square(to.0 + 8),
    };
    if checkers.is_not_empty() {
        let checker = checkers.lsb();
        proof {
            geom::lemma_between_symmetric(k, checker.at(), mv.dst());
        }
        if checker != victim && !between_bb(ksq, checker).check_bit(to) {
            proof {
                assert(checkers.has(checker.at()));
                safety::lemma_ep_checker(*board, mv, checker.at());
                assert(rules::hits(b2, opp, checker.at(), k));
            }
            return false;
        }
        assert forall|a: int| #[trigger] rules::hits(b, opp, a, k) implies a == victim.at() || geom::between(
            a,
            k,
            mv.dst(),
        ) by {
            assert(checkers.has(a));
            assert(checkers.has(checker.at()));
        }
    }
    assert forall|a: int| #[trigger] rules::hits(b, opp, a, k) implies a == victim.at() || geom::between(a, k, mv.dst()) by {
        assert(checkers.has(a));
    }
    if pinned.check_bit(from) && !line_bb(from, to).check_bit(ksq) {
        proof {
            safety::lemma_ep_pin(*board, mv);
        }
        return false;
    }
    let queens = board.pieces(PieceType::Queen, opp);
    let off = board.occ.xor(from.bitboard()).xor(victim.bitboard());
    if ksq.rank() == from.rank() {
        let rq = board.pieces(PieceType::Rook, opp).or(queens);
        let seen = atk_rook(ksq, off).and(rq);
        if seen.is_not_empty() {
            proof {
                let a = choose|a: int| #[trigger] seen.has(a);
                lemma_ep_rank_hit(*board, mv, off, a);
                assert(rules::hits(b2, opp, a, k));
            }
            return false;
        }
        proof {
            assert forall|a: int|
                geom::rank(a) == geom::rank(k) && b[a]->0.kind.is_ortho() implies !#[trigger] rules::hits(b2, opp, a, k) by {
                if rules::hits(b2, opp, a, k) {
                    safety::lemma_ep_hits(*board, mv, a);
                    assert(geom::clear(off, k, a)) by {
                        assert forall|s: int| #[trigger] off.has(s) implies !geom::between(k, a, s) by {
                            geom::lemma_between_symmetric(k, a, s);
                            if geom::between(a, k, s) {
                                assert(b2[s] is None);
                            }
                        }
                    }
                    assert(seen.has(a));
                }
            }
        }
    }
    let bq = board.pieces(PieceType::Bishop, opp).or(queens);
    let ep_occ = off.or(to.bitboard());
    let seen = atk_bishop(ksq, ep_occ).and(bq);
    proof {
        assert forall|s: int| #[trigger] ep_occ.has(s) <==> rules::occupied(b2, s) by {}
        assert forall|a: int| geom::diagonal(a, k) implies (#[trigger] rules::hits(b2, opp, a, k) <==> seen.has(a)) by {
            rules::lemma_clear(b2, ep_occ, k, a);
            if geom::on_board(a) {
                rules::lemma_open_symmetric(b2, k, a);
                safety::lemma_ep_hits(*board, mv, a);
                if rules::hits(b, opp, a, k) && !safety::slides(b[a]->0.kind) {
                    assert(a == victim.at() || geom::between(a, k, mv.dst()));
                }
            }
        }
    }
    if seen.is_not_empty() {
        proof {
            let a = choose|a: int| #[trigger] seen.has(a);
            assert(rules::hits(b2, opp, a, k));
        }
        return false;
    }
    proof {
        if !legal::king_safe_after(*board, mv) {
            let a = choose|a: int| #[trigger] rules::hits(b2, opp, a, k);
            if geom::diagonal(a, k) {
                assert(seen.has(a));
            } else {
                safety::lemma_ep_rest(*board, mv, a);
                assert(b[a] == b2[a]);
            }
        }
    }
    true
}

/// A rook or queen that sees the king along its rank once both pawns are off attacks it
/// after the capture.
proof fn lemma_ep_rank_hit(p: Position, mv: Move, off: Bitboard, a: int)
    requires
        p.wf(),
        legal::pseudo_legal(p, mv),
        mv.takes_ep(),
        geom::rank(position::king_of(p.board(), p.stm)) == geom::rank(mv.src()),
        rules::owned(p.board(), a, p.stm.other()),
        p.board()[a]->0.kind.is_ortho(),
        geom::rook_sees(off, position::king_of(p.board(), p.stm), a),
        forall|s: int| #[trigger]
            off.has(s) <==> rules::occupied(p.board(), s) && s != mv.src() && s != rules::ep_victim(p.stm, mv.dst()),
        forall|d: int| #[trigger]
            rules::hits(p.board(), p.stm.other(), d, position::king_of(p.board(), p.stm)) ==> d == rules::ep_victim(
                p.stm,
                mv.dst(),
            ) || geom::between(d, position::king_of(p.board(), p.stm), mv.dst()),
    ensures
        rules::hits(
            rules::after(p.board(), p.stm, mv),
            p.stm.other(),
            a,
            position::king_of(p.board(), p.stm),
        ),
{
    let b = p.board();
    let o = p.stm.other();
    let k = position::king_of(b, p.stm);
    let t = mv.dst();
    let v = rules::ep_victim(p.stm, t);
    assert(position::king_at(b, p.stm, k));
    assert(p.en_passant matches Some(q) && q.at() == t);
    let b2 = rules::after(b, p.stm, mv);
    assert forall|s: int| geom::between(a, k, s) implies ((#[trigger] b[s]) is None || s == mv.src() || s == v) by {
        geom::lemma_between_symmetric(k, a, s);
        assert(!off.has(s));
    }
    if geom::rank(a) == geom::rank(k) {
        assert forall|s: int| geom::between(a, k, s) implies (#[trigger] b2[s]) is None by {
            assert(b[s] is None || s == mv.src() || s == v);
        }
    } else {
        assert forall|s: int| geom::between(a, k, s) implies (#[trigger] b[s]) is None by {}
        assert(rules::hits(b, o, a, k));
    }
    safety::lemma_ep_hits(p, mv, a);
}

/// `new` holds the moves of `old` and those of `class`, and repeats none unless `old` does
/// or the two overlap.
pub open spec fn grown(old_list: Seq<Move>, new_list: Seq<Move>, class: spec_fn(Move) -> bool) -> bool {
    &&& forall|m: Move| #[trigger] new_list.contains(m) <==> old_list.contains(m) || class(m)
    &&& old_list.no_duplicates() && (forall|m: Move| class(m) ==> !#[trigger] old_list.contains(m))
        ==> new_list.no_duplicates()
}

/// Appending a move the list does not hold.
proof fn lemma_push(l: Seq<Move>, mv: Move)
    ensures
        forall|m: Move| #[trigger] l.push(mv).contains(m) <==> l.contains(m) || m == mv,
        l.no_duplicates() && !l.contains(mv) ==> l.push(mv).no_duplicates(),
{
    assert forall|m: Move| #[trigger] l.push(mv).contains(m) <==> l.contains(m) || m == mv by {
        if l.contains(m) {
            let i = choose|i: int| 0 <= i < l.len() && l[i] == m;
            assert(l.push(mv)[i] == m);
        }
        if m == mv {
            assert(l.push(mv)[l.len() as int] == m);
        }
    }
}

/// How a man other than a pawn moves.
#[derive(Clone, Copy, Debug, PartialEq, Eq, Structural)]
enum Pattern {
    Hop,
    Diagonal,
    Straight,
    Step,
}

/// Whether a man on `a` that moves by `p` sees `t`.
spec fn pattern_sees(p: Pattern, occ: Bitboard, a: int, t: int) -> bool {
    match p {
        Pattern::Hop => geom::knight_hop(a, t),
        Pattern::Diagonal => geom::bishop_sees(occ, a, t),
        Pattern::Straight => geom::rook_sees(occ, a, t),
        Pattern::Step => geom::king_step(a, t),
    }
}

/// The moves from squares of `movers` by `p` onto squares of `mask`.
spec fn pattern_class(p: Pattern, movers: Bitboard, occ: Bitboard, mask: Bitboard, them: Bitboard, m: Move) -> bool {
    &&& movers.has(m.src())
    &&& pattern_sees(p, occ, m.src(), m.dst())
    &&& mask.has(m.dst())
    &&& m.flag() == (if them.has(m.dst()) {
        Move::CAPTURE
    } else {
        Move::QUIET
    })
}

/// Emits the moves from `from` onto `targets`, captures where `them` stand.
fn emit_from_mask(acc: &mut MoveList, from: Square, targets: Bitboard, them: Bitboard)
    requires
        from.ok(),
    ensures
        grown(
            old(acc)@,
            final(acc)@,
            |m: Move|
                m.src() == from.at() && targets.has(m.dst()) && m.flag() == (if them.has(m.dst()) {
                    Move::CAPTURE
                } else {
                    Move::QUIET
                }),
        ),
{
    let mut left = targets;
    let ghost l0 = acc@;
    let ghost class = |m: Move|
        m.src() == from.at() && targets.has(m.dst()) && m.flag() == (if them.has(m.dst()) {
            Move::CAPTURE
        } else {
            Move::QUIET
        });
    let ghost done = |m: Move| class(m) && !left.has(m.dst());
    while left.is_not_empty()
        invariant
            from.ok(),
            class == (|m: Move|
                m.src() == from.at() && targets.has(m.dst()) && m.flag() == (if them.has(m.dst()) {
                    Move::CAPTURE
                } else {
                    Move::QUIET
                })),
            forall|s: int| #[trigger] left.has(s) ==> targets.has(s),
            forall|m: Move| #[trigger] acc@.contains(m) <==> l0.contains(m) || (class(m) && !left.has(m.dst())),
            l0.no_duplicates() && (forall|m: Move| class(m) ==> !#[trigger] l0.contains(m)) ==> acc@.no_duplicates(),
        decreases left.0,
    {
        let ghost left0 = left;
        let ghost l1 = acc@;
        let to = left.pop_lsb();
        let flag: u16 = if them.check_bit(to) {
            Move::CAPTURE
        } else {
            Move::QUIET
        };
        let mv = Move::new(from, to, flag);
        acc.push(mv);
        proof {
            lemma_push(l1, mv);
            assert(class(mv));
            assert forall|m: Move| #[trigger] acc@.contains(m) <==> l0.contains(m) || (class(m) && !left.has(m.dst())) by {
                if class(m) && m.dst() == to.at() {
                    Move::lemma_fields(m, mv);
                }
            }
        }
    }
    assert forall|m: Move| #[trigger] acc@.contains(m) <==> l0.contains(m) || class(m) by {}
}

/// Emits every move of the men on `movers`, who move by `p`, onto `mask`.
fn gen_pattern(acc: &mut MoveList, p: Pattern, movers: Bitboard, occ: Bitboard, mask: Bitboard, them: Bitboard)
    ensures
        grown(old(acc)@, final(acc)@, |m: Move| pattern_class(p, movers, occ, mask, them, m)),
{
    let mut left = movers;
    let ghost l0 = acc@;
    while left.is_not_empty()
        invariant
            forall|s: int| #[trigger] left.has(s) ==> movers.has(s),
            forall|m: Move| #[trigger]
                acc@.contains(m) <==> l0.contains(m) || (pattern_class(p, movers, occ, mask, them, m) && !left.has(m.src())),
            l0.no_duplicates() && (forall|m: Move|
                pattern_class(p, movers, occ, mask, them, m) ==> !#[trigger] l0.contains(m)) ==> acc@.no_duplicates(),
        decreases left.0,
    {
        let ghost left0 = left;
        let ghost l1 = acc@;
        let from = left.pop_lsb();
        let seen = match p {
            Pattern::Hop => atk_knight(from),
            Pattern::Diagonal => atk_bishop(from, occ),
            Pattern::Straight => atk_rook(from, occ),
            Pattern::Step => atk_king(from),
        };
        let targets = seen.and(mask);
        emit_from_mask(acc, from, targets, them);
        proof {
            let class = |m: Move|
                m.src() == from.at() && targets.has(m.dst()) && m.flag() == (if them.has(m.dst()) {
                    Move::CAPTURE
                } else {
                    Move::QUIET
                });
            assert(grown(l1, acc@, class));
            assert forall|m: Move| #[trigger] class(m) <==> pattern_class(p, movers, occ, mask, them, m) && m.src()
                == from.at() by {
                if class(m) {
                    assert(targets.has(m.dst()));
                }
            }
            assert forall|m: Move| #[trigger]
                acc@.contains(m) <==> l0.contains(m) || (pattern_class(p, movers, occ, mask, them, m) && !left.has(
                    m.src(),
                )) by {
                assert(class(m) <==> pattern_class(p, movers, occ, mask, them, m) && m.src() == from.at());
            }
            if l0.no_duplicates() && (forall|m: Move|
                pattern_class(p, movers, occ, mask, them, m) ==> !#[trigger] l0.contains(m)) {
                assert forall|m: Move| class(m) implies !#[trigger] l1.contains(m) by {
                    assert(left0.has(m.src()));
                }
            }
        }
    }
    assert forall|m: Move| #[trigger]
        acc@.contains(m) <==> l0.contains(m) || pattern_class(p, movers, occ, mask, them, m) by {}
    assert(grown(l0, acc@, |m: Move| pattern_class(p, movers, occ, mask, them, m)));
}

/// The moves with flag `flag` onto `targets`, each from `delta` squares before.
spec fn shifted_class(targets: Bitboard, delta: int, flag: u16, m: Move) -> bool {
    targets.has(m.dst()) && m.src() == m.dst() - delta && m.flag() == flag
}

/// Emits one move with flag `flag` onto each of `targets`, from `delta` squares before.
fn emit_shifted(acc: &mut MoveList, targets: Bitboard, delta: i8, flag: u16)
    requires
        flag < 16,
        -16 <= delta <= 16,
        forall|s: int| #[trigger] targets.has(s) ==> 0 <= s - delta < 64,
    ensures
        grown(old(acc)@, final(acc)@, |m: Move| shifted_class(targets, delta as int, flag, m)),
{
    let mut left = targets;
    let ghost l0 = acc@;
    while left.is_not_empty()
        invariant
            flag < 16,
            -16 <= delta <= 16,
            forall|s: int| #[trigger] targets.has(s) ==> 0 <= s - delta < 64,
            forall|s: int| #[trigger] left.has(s) ==> targets.has(s),
            forall|m: Move| #[trigger]
                acc@.contains(m) <==> l0.contains(m) || (shifted_class(targets, delta as int, flag, m) && !left.has(
                    m.dst(),
                )),
            l0.no_duplicates() && (forall|m: Move|
                shifted_class(targets, delta as int, flag, m) ==> !#[trigger] l0.contains(m)) ==> acc@.no_duplicates(),
        decreases left.0,
    {
        let ghost l1 = acc@;
        let to = left.pop_lsb();
        assert(targets.has(to.at()));
        let mv = Move::new(Square((to.0 as i8 - delta) as u8), to, flag);
        acc.push(mv);
        proof {
            lemma_push(l1, mv);
            assert(shifted_class(targets, delta as int, flag, mv));
            assert forall|m: Move| #[trigger]
                acc@.contains(m) <==> l0.contains(m) || (shifted_class(targets, delta as int, flag, m) && !left.has(
                    m.dst(),
                )) by {
                if shifted_class(targets, delta as int, flag, m) && m.dst() == to.at() {
                    Move::lemma_fields(m, mv);
                }
            }
        }
    }
    assert forall|m: Move| #[trigger]
        acc@.contains(m) <==> l0.contains(m) || shifted_class(targets, delta as int, flag, m) by {}
    assert(grown(l0, acc@, |m: Move| shifted_class(targets, delta as int, flag, m)));
}

/// The promotions onto `targets`, each from `delta` squares before.
spec fn promo_class(targets: Bitboard, delta: int, capture: bool, m: Move) -> bool {
    targets.has(m.dst()) && m.src() == m.dst() - delta && m.promotes() && m.captures() == capture
}

/// Appends the four promotions from `from` to `to`, queen first.
fn emit_promotions(acc: &mut MoveList, from: Square, to: Square, capture: bool)
    requires
        from.ok(),
        to.ok(),
    ensures
        grown(
            old(acc)@,
            final(acc)@,
            |m: Move| m.src() == from.at() && m.dst() == to.at() && m.promotes() && m.captures() == capture,
        ),
{
    let ghost l0 = acc@;
    let (q, r, b, n): (u16, u16, u16, u16) = if capture {
        (Move::PROM_Q_CAPTURE, Move::PROM_R_CAPTURE, Move::PROM_B_CAPTURE, Move::PROM_N_CAPTURE)
    } else {
        (Move::PROM_Q, Move::PROM_R, Move::PROM_B, Move::PROM_N)
    };
    let mq = Move::new(from, to, q);
    let mr = Move::new(from, to, r);
    let mb = Move::new(from, to, b);
    let mn = Move::new(from, to, n);
    acc.push(mq);
    acc.push(mr);
    acc.push(mb);
    acc.push(mn);
    proof {
        let l1 = l0.push(mq);
        let l2 = l1.push(mr);
        let l3 = l2.push(mb);
        lemma_push(l0, mq);
        lemma_push(l1, mr);
        lemma_push(l2, mb);
        lemma_push(l3, mn);
        let class = |m: Move|
            m.src() == from.at() && m.dst() == to.at() && m.promotes() && m.captures() == capture;
        assert forall|m: Move| #[trigger] class(m) <==> m == mq || m == mr || m == mb || m == mn by {
            if class(m) {
                assert(m.flag() < 16);
                if m.flag() == q {
                    Move::lemma_fields(m, mq);
                } else if m.flag() == r {
                    Move::lemma_fields(m, mr);
                } else if m.flag() == b {
                    Move::lemma_fields(m, mb);
                } else {
                    assert(m.flag() == n);
                    Move::lemma_fields(m, mn);
                }
            }
        }
        assert forall|m: Move| #[trigger] acc@.contains(m) <==> l0.contains(m) || class(m) by {
            assert(l1.contains(m) <==> l0.contains(m) || m == mq);
            assert(l2.contains(m) <==> l1.contains(m) || m == mr);
            assert(l3.contains(m) <==> l2.contains(m) || m == mb);
            assert(class(m) <==> m == mq || m == mr || m == mb || m == mn);
        }
        if l0.no_duplicates() && (forall|m: Move| class(m) ==> !#[trigger] l0.contains(m)) {
            assert(class(mq) && class(mr) && class(mb) && class(mn));
            assert(mq.flag() != mr.flag() && mq.flag() != mb.flag() && mq.flag() != mn.flag() && mr.flag() != mb.flag()
                && mr.flag() != mn.flag() && mb.flag() != mn.flag());
            assert(!l1.contains(mr));
            assert(!l2.contains(mb));
            assert(!l3.contains(mn));
        }
    }
}

/// Emits the four promotions onto each of `targets`, from `delta` squares before.
fn emit_promotions_onto(acc: &mut MoveList, targets: Bitboard, delta: i8, capture: bool)
    requires
        -16 <= delta <= 16,
        forall|s: int| #[trigger] targets.has(s) ==> 0 <= s - delta < 64,
    ensures
        grown(old(acc)@, final(acc)@, |m: Move| promo_class(targets, delta as int, capture, m)),
{
    let mut left = targets;
    let ghost l0 = acc@;
    let ghost d = delta as int;
    while left.is_not_empty()
        invariant
            d == delta,
            -16 <= delta <= 16,
            forall|s: int| #[trigger] targets.has(s) ==> 0 <= s - delta < 64,
            forall|s: int| #[trigger] left.has(s) ==> targets.has(s),
            forall|m: Move| #[trigger]
                acc@.contains(m) <==> l0.contains(m) || (promo_class(targets, d, capture, m) && !left.has(m.dst())),
            l0.no_duplicates() && (forall|m: Move| promo_class(targets, d, capture, m) ==> !#[trigger] l0.contains(m))
                ==> acc@.no_duplicates(),
        decreases left.0,
    {
        let ghost left0 = left;
        let ghost l1 = acc@;
        let to = left.pop_lsb();
        assert(targets.has(to.at()));
        let from = Square((to.0 as i8 - delta) as u8);
        emit_promotions(acc, from, to, capture);
        proof {
            let class = |m: Move|
                m.src() == from.at() && m.dst() == to.at() && m.promotes() && m.captures() == capture;
            assert(grown(l1, acc@, class));
            assert forall|m: Move| #[trigger] class(m) <==> promo_class(targets, d, capture, m) && m.dst() == to.at() by {}
            assert forall|m: Move| #[trigger]
                acc@.contains(m) <==> l0.contains(m) || (promo_class(targets, d, capture, m) && !left.has(m.dst())) by {
                assert(class(m) <==> promo_class(targets, d, capture, m) && m.dst() == to.at());
            }
            if l0.no_duplicates() && (forall|m: Move| promo_class(targets, d, capture, m) ==> !#[trigger] l0.contains(m)) {
                assert forall|m: Move| class(m) implies !#[trigger] l1.contains(m) by {
                    assert(left0.has(m.dst()));
                }
            }
        }
    }
    assert forall|m: Move| #[trigger]
        acc@.contains(m) <==> l0.contains(m) || promo_class(targets, d, capture, m) by {}
    assert(grown(l0, acc@, |m: Move| promo_class(targets, d, capture, m)));
}

/// Growing a list twice grows it by both classes, provided they do not overlap.
proof fn lemma_grown_twice(
    l0: Seq<Move>,
    l1: Seq<Move>,
    l2: Seq<Move>,
    c1: spec_fn(Move) -> bool,
    c2: spec_fn(Move) -> bool,
    both: spec_fn(Move) -> bool,
)
    requires
        grown(l0, l1, c1),
        grown(l1, l2, c2),
        forall|m: Move| #[trigger] both(m) <==> c1(m) || c2(m),
        forall|m: Move| !(#[trigger] c1(m) && #[trigger] c2(m)),
    ensures
        grown(l0, l2, both),
{
    assert forall|m: Move| #[trigger] l2.contains(m) <==> l0.contains(m) || both(m) by {
        assert(l1.contains(m) <==> l0.contains(m) || c1(m));
        assert(both(m) <==> c1(m) || c2(m));
    }
    if l0.no_duplicates() && (forall|m: Move| both(m) ==> !#[trigger] l0.contains(m)) {
        assert forall|m: Move| c1(m) implies !#[trigger] l0.contains(m) by {
            assert(both(m));
        }
        assert forall|m: Move| c2(m) implies !#[trigger] l1.contains(m) by {
            assert(both(m));
            assert(!(c1(m) && c2(m)));
        }
    }
}

/// Moves that generation in tactical mode keeps: captures and promotions.
pub open spec fn kept(tactical: bool, m: Move) -> bool {
    !tactical || m.captures() || m.promotes()
}

/// The pawn moves generation hands out.
spec fn pawn_class(board: Position, tactical: bool, m: Move) -> bool {
    &&& kept(tactical, m)
    &&& m.canonical()
    &&& !m.castles()
    &&& rules::owned(board.board(), m.src(), board.stm)
    &&& board.board()[m.src()]->0.kind == PieceType::Pawn
    &&& !rules::owned(board.board(), m.dst(), board.stm)
    &&& legal::pawn_move(board, m)
}

/// The pushes among the pawn moves.
spec fn push_class(board: Position, m: Move) -> bool {
    pawn_class(board, false, m) && !m.captures() && !m.promotes()
}

/// Emits the pushes that do not promote.
fn gen_pawn_pushes(board: &Position, acc: &mut MoveList, all_pushes: Bitboard)
    requires
        board.wf(),
        forall|t: int| #[trigger]
            all_pushes.has(t) <==> geom::on_board(t) && geom::on_board(t - 8 * board.stm.up()) && board.board()[t] is None
                && board.board()[t - 8 * board.stm.up()] == rules::man(board.stm, PieceType::Pawn),
    ensures
        grown(old(acc)@, final(acc)@, |m: Move| push_class(*board, m)),
{
    let us = board.stm;
    let up = Direction::North.relative(us);
    let up_d: i8 = up.delta();
    let empty = board.occupancy().not();
    let (promo_rank, third_rank): (u64, u64) = if us == Color::White {
        (0xff00_0000_0000_0000, 0x0000_0000_00ff_0000)
    } else {
        (0x0000_0000_0000_00ff, 0x0000_ff00_0000_0000)
    };
    proof {
        bitboard::lemma_ranks();
    }
    let ghost b = board.board();
    let ghost l0 = acc@;
    let quiet = all_pushes.and(Bitboard(promo_rank).not());
    emit_shifted(acc, quiet, up_d, Move::QUIET);
    let ghost l1 = acc@;
    let doubles = all_pushes.and(Bitboard(third_rank)).shift(up).and(empty);
    proof {
        assert forall|t: int| #[trigger] doubles.has(t) implies 0 <= t - 2 * up_d < 64 by {
            assert(all_pushes.has(t - up_d));
        }
    }
    emit_shifted(acc, doubles, up_d * 2, Move::DOUBLE_PUSH);
    proof {
        let c1 = |m: Move| shifted_class(quiet, up_d as int, Move::QUIET, m);
        let c2 = |m: Move| shifted_class(doubles, 2 * up_d as int, Move::DOUBLE_PUSH, m);
        let both = |m: Move| push_class(*board, m);
        assert(grown(l1, acc@, c2));
        assert forall|m: Move| #[trigger] both(m) <==> c1(m) || c2(m) by {
            lemma_push_class(*board, all_pushes, quiet, doubles, m);
        }
        lemma_grown_twice(l0, l1, acc@, c1, c2, both);
    }
}

/// The two kinds of pushes.
proof fn lemma_push_class(board: Position, all_pushes: Bitboard, quiet: Bitboard, doubles: Bitboard, m: Move)
    requires
        board.wf(),
        forall|t: int| #[trigger]
            all_pushes.has(t) <==> geom::on_board(t) && geom::on_board(t - 8 * board.stm.up()) && board.board()[t] is None
                && board.board()[t - 8 * board.stm.up()] == rules::man(board.stm, PieceType::Pawn),
        forall|t: int| #[trigger] quiet.has(t) <==> all_pushes.has(t) && geom::rank(t) != board.stm.last_rank(),
        forall|t: int| #[trigger]
            doubles.has(t) <==> geom::on_board(t) && all_pushes.has(t - 8 * board.stm.up()) && geom::rank(t)
                == board.stm.home_rank() + 2 * board.stm.up() && board.board()[t] is None,
    ensures
        push_class(board, m) <==> shifted_class(quiet, 8 * board.stm.up(), Move::QUIET, m) || shifted_class(
            doubles,
            16 * board.stm.up(),
            Move::DOUBLE_PUSH,
            m,
        ),
{
    let b = board.board();
    let up = board.stm.up();
    let t = m.dst();
    assert(m.flag() < 16);
    if push_class(board, m) {
        assert(m.flag() == 0 || m.flag() == 4);
        if m.double_push() {
            assert(all_pushes.has(t - 8 * up));
            assert(doubles.has(t));
        } else {
            assert(all_pushes.has(t));
            assert(quiet.has(t));
        }
    }
    if shifted_class(quiet, 8 * up, Move::QUIET, m) {
        assert(all_pushes.has(t));
    }
    if shifted_class(doubles, 16 * up, Move::DOUBLE_PUSH, m) {
        assert(all_pushes.has(t - 8 * up));
    }
}

/// The pawn captures, en passant apart, that change file by `df`.
spec fn capture_class(board: Position, df: int, m: Move) -> bool {
    &&& pawn_class(board, true, m)
    &&& m.captures()
    &&& !m.takes_ep()
    &&& geom::file(m.dst()) == geom::file(m.src()) + df
}

/// Emits the pawn captures in one direction, en passant apart.
fn gen_pawn_captures(board: &Position, acc: &mut MoveList, dir: Direction)
    requires
        board.wf(),
        dir.dr() == board.stm.up(),
        dir.df() == 1 || dir.df() == -1,
    ensures
        grown(old(acc)@, final(acc)@, |m: Move| capture_class(*board, dir.df(), m)),
{
    let us = board.stm;
    let pawns = board.pieces(PieceType::Pawn, us);
    let them = board.side(us.opposite());
    let promo_rank: u64 = if us == Color::White {
        0xff00_0000_0000_0000
    } else {
        0x0000_0000_0000_00ff
    };
    proof {
        bitboard::lemma_ranks();
    }
    let ghost l0 = acc@;
    let d: i8 = dir.delta();
    let cap = pawns.shift(dir).and(them);
    let promo = cap.and(Bitboard(promo_rank));
    let standard = cap.and(Bitboard(promo_rank).not());
    proof {
        assert forall|t: int| #[trigger] cap.has(t) implies 0 <= t - d < 64 by {
            assert(pawns.has(t - 8 * dir.dr() - dir.df()));
        }
    }
    emit_promotions_onto(acc, promo, d, true);
    let ghost l1 = acc@;
    emit_shifted(acc, standard, d, Move::CAPTURE);
    proof {
        let c1 = |m: Move| promo_class(promo, d as int, true, m);
        let c2 = |m: Move| shifted_class(standard, d as int, Move::CAPTURE, m);
        let both = |m: Move| capture_class(*board, dir.df(), m);
        assert(grown(l1, acc@, c2));
        assert forall|m: Move| #[trigger] both(m) <==> c1(m) || c2(m) by {
            let t = m.dst();
            assert(m.flag() < 16);
            if both(m) {
                assert(t - m.src() == d);
                assert(pawns.has(m.src()));
                assert(cap.has(t));
                if m.promotes() {
                    assert(promo.has(t));
                } else {
                    assert(m.flag() == 1);
                    assert(standard.has(t));
                }
            }
            if c1(m) || c2(m) {
                assert(cap.has(t));
                assert(pawns.has(t - 8 * dir.dr() - dir.df()));
                assert(geom::pawn_hit(us, m.src(), t));
            }
        }
        lemma_grown_twice(l0, l1, acc@, c1, c2, both);
    }
}

/// The en passant captures.
spec fn ep_class(board: Position, m: Move) -> bool {
    pawn_class(board, true, m) && m.takes_ep()
}

/// Emits the en passant captures.
fn gen_en_passant(board: &Position, acc: &mut MoveList)
    requires
        board.wf(),
    ensures
        grown(old(acc)@, final(acc)@, |m: Move| ep_class(*board, m)),
{
    let us = board.stm;
    let ghost l0 = acc@;
    let ghost b = board.board();
    if let Some(ep_sq) = board.en_passant {
        let pawns = board.pieces(PieceType::Pawn, us);
        let attackers = board.get_attackers_on(ep_sq, us).and(pawns);
        let mut left = attackers;
        while left.is_not_empty()
            invariant
                board.wf(),
                b == board.board(),
                us == board.stm,
                ep_sq.ok(),
                board.en_passant == Some(ep_sq),
                forall|s: int| #[trigger]
                    attackers.has(s) <==> geom::on_board(s) && b[s] == rules::man(us, PieceType::Pawn) && geom::pawn_hit(
                        us,
                        s,
                        ep_sq.at(),
                    ),
                forall|s: int| #[trigger] left.has(s) ==> attackers.has(s),
                forall|m: Move| #[trigger] acc@.contains(m) <==> l0.contains(m) || (ep_class(*board, m) && !left.has(m.src())),
                l0.no_duplicates() && (forall|m: Move| ep_class(*board, m) ==> !#[trigger] l0.contains(m))
                    ==> acc@.no_duplicates(),
            decreases left.0,
        {
            let ghost l1 = acc@;
            let from = left.pop_lsb();
            assert(attackers.has(from.at()));
            let mv = Move::new(from, ep_sq, Move::EP_CAPTURE);
            acc.push(mv);
            proof {
                lemma_push(l1, mv);
                assert(ep_class(*board, mv));
                assert forall|m: Move| #[trigger]
                    acc@.contains(m) <==> l0.contains(m) || (ep_class(*board, m) && !left.has(m.src())) by {
                    if ep_class(*board, m) && m.src() == from.at() {
                        Move::lemma_fields(m, mv);
                    }
                }
            }
        }
        assert forall|m: Move| #[trigger] acc@.contains(m) <==> l0.contains(m) || ep_class(*board, m) by {}
    }
    assert(grown(l0, acc@, |m: Move| ep_class(*board, m)));
}

/// The pushes that promote.
spec fn quiet_promo_class(board: Position, m: Move) -> bool {
    pawn_class(board, true, m) && !m.captures()
}

/// Pawns are special in five ways: direction, double push, diagonal capture, promotion and
/// en passant.
fn gen_pawns(board: &Position, acc: &mut MoveList, tactical: bool)
    requires
        board.wf(),
    ensures
        grown(old(acc)@, final(acc)@, |m: Move| pawn_class(*board, tactical, m)),
{
    let us = board.stm;
    let ghost b = board.board();
    let ghost l0 = acc@;
    let up = Direction::North.relative(us);
    let left = Direction::NorthWest.relative(us);
    let right = Direction::NorthEast.relative(us);
    let up_d: i8 = up.delta();
    let promo_rank: u64 = if us == Color::White {
        0xff00_0000_0000_0000
    } else {
        0x0000_0000_0000_00ff
    };
    proof {
        bitboard::lemma_ranks();
    }
    let all_pushes = board.pieces(PieceType::Pawn, us).shift(up).and(board.occupancy().not());
    if !tactical {
        gen_pawn_pushes(board, acc, all_pushes);
    }
    let ghost l1 = acc@;
    gen_pawn_captures(board, acc, left);
    let ghost l2 = acc@;
    gen_pawn_captures(board, acc, right);
    let ghost l3 = acc@;
    let promo_pushes = all_pushes.and(Bitboard(promo_rank));
    emit_promotions_onto(acc, promo_pushes, up_d, false);
    let ghost l4 = acc@;
    gen_en_passant(board, acc);
    proof {
        let k1 = |m: Move| !tactical && push_class(*board, m);
        let k2 = |m: Move| capture_class(*board, left.df(), m);
        let k3 = |m: Move| capture_class(*board, right.df(), m);
        let k4 = |m: Move| promo_class(promo_pushes, up_d as int, false, m);
        let k5 = |m: Move| ep_class(*board, m);
        assert(grown(l0, l1, k1)) by {
            if !tactical {
                let c = |m: Move| push_class(*board, m);
                assert(grown(l0, l1, c));
                assert forall|m: Move| #[trigger] k1(m) == c(m) by {}
                assert(k1 =~= c);
            }
        }
        assert(grown(l1, l2, k2));
        assert(grown(l2, l3, k3));
        assert(grown(l3, l4, k4));
        assert(grown(l4, acc@, k5));
        let k12 = |m: Move| k1(m) || k2(m);
        let k123 = |m: Move| k12(m) || k3(m);
        let k1234 = |m: Move| k123(m) || k4(m);
        let all = |m: Move| pawn_class(*board, tactical, m);
        lemma_grown_twice(l0, l1, l2, k1, k2, k12);
        lemma_grown_twice(l0, l2, l3, k12, k3, k123);
        assert forall|m: Move| #[trigger] k4(m) <==> quiet_promo_class(*board, m) by {
            let t = m.dst();
            assert(m.flag() < 16);
            if k4(m) {
                assert(all_pushes.has(t));
            }
            if quiet_promo_class(*board, m) {
                assert(m.src() == t - up_d);
                assert(all_pushes.has(t));
                assert(promo_pushes.has(t));
            }
        }
        assert forall|m: Move| !(#[trigger] k123(m) && #[trigger] k4(m)) by {
            assert(k4(m) <==> quiet_promo_class(*board, m));
        }
        lemma_grown_twice(l0, l3, l4, k123, k4, k1234);
        assert forall|m: Move| !(#[trigger] k1234(m) && #[trigger] k5(m)) by {
            assert(k4(m) <==> quiet_promo_class(*board, m));
        }
        assert forall|m: Move| #[trigger] all(m) <==> k1234(m) || k5(m) by {
            assert(k4(m) <==> quiet_promo_class(*board, m));
        }
        lemma_grown_twice(l0, l4, acc@, k1234, k5, all);
    }
}

/// The moves of knights, bishops, rooks, queens and kings that generation hands out,
/// castling apart.
spec fn piece_class(board: Position, tactical: bool, m: Move) -> bool {
    &&& kept(tactical, m)
    &&& m.canonical()
    &&& !m.castles()
    &&& rules::owned(board.board(), m.src(), board.stm)
    &&& board.board()[m.src()]->0.kind != PieceType::Pawn
    &&& !rules::owned(board.board(), m.dst(), board.stm)
    &&& legal::piece_move(board, m)
}

/// Emits the moves of knights, bishops, rooks, queens and kings, castling apart.
fn gen_pieces(board: &Position, acc: &mut MoveList, tactical: bool)
    requires
        board.wf(),
    ensures
        grown(old(acc)@, final(acc)@, |m: Move| piece_class(*board, tactical, m)),
{
    let us = board.stm;
    let own = board.side(us);
    let them = board.side(us.opposite());
    let occ = board.occupancy();
    let mask = if tactical {
        them
    } else {
        own.not()
    };
    let knights = board.pieces(PieceType::Knight, us);
    let queens = board.pieces(PieceType::Queen, us);
    let diags = board.pieces(PieceType::Bishop, us).or(queens);
    let orthos = board.pieces(PieceType::Rook, us).or(queens);
    let king = board.pieces(PieceType::King, us);
    let ghost l0 = acc@;
    gen_pattern(acc, Pattern::Hop, knights, occ, mask, them);
    let ghost l1 = acc@;
    gen_pattern(acc, Pattern::Diagonal, diags, occ, mask, them);
    let ghost l2 = acc@;
    gen_pattern(acc, Pattern::Straight, orthos, occ, mask, them);
    let ghost l3 = acc@;
    gen_pattern(acc, Pattern::Step, king, occ, mask, them);
    proof {
        let b = board.board();
        let k1 = |m: Move| pattern_class(Pattern::Hop, knights, occ, mask, them, m);
        let k2 = |m: Move| pattern_class(Pattern::Diagonal, diags, occ, mask, them, m);
        let k3 = |m: Move| pattern_class(Pattern::Straight, orthos, occ, mask, them, m);
        let k4 = |m: Move| pattern_class(Pattern::Step, king, occ, mask, them, m);
        assert(grown(l0, l1, k1));
        assert(grown(l1, l2, k2));
        assert(grown(l2, l3, k3));
        assert(grown(l3, acc@, k4));
        let k12 = |m: Move| k1(m) || k2(m);
        let k123 = |m: Move| k12(m) || k3(m);
        let all = |m: Move| piece_class(*board, tactical, m);
        lemma_grown_twice(l0, l1, l2, k1, k2, k12);
        lemma_grown_twice(l0, l2, l3, k12, k3, k123);
        assert forall|m: Move| #[trigger] all(m) <==> k123(m) || k4(m) by {
            assert(m.flag() < 16);
            rules::lemma_clear(b, occ, m.src(), m.dst());
            assert(b[m.src()] is Some ==> b[m.src()]->0.kind != PieceType::Empty);
            if all(m) {
                assert(m.flag() == 0 || m.flag() == 1);
            }
        }
        lemma_grown_twice(l0, l3, acc@, k123, k4, all);
    }
}

/// The castling moves.
spec fn castle_class(board: Position, m: Move) -> bool {
    m.castles() && legal::castle_allowed(board, m.src(), m.dst())
}

/// Emits the castling moves, king to rook.
fn gen_castling(board: &Position, acc: &mut MoveList)
    requires
        board.wf(),
    ensures
        grown(old(acc)@, final(acc)@, |m: Move| castle_class(*board, m)),
{
    let us = board.stm;
    let ghost b = board.board();
    let ghost l0 = acc@;
    let ksq = board.king_square(us);
    let (oo, ooo): (usize, usize) = if us == Color::White {
        (ROOK_W_KS, ROOK_W_QS)
    } else {
        (ROOK_B_KS, ROOK_B_QS)
    };
    let r1 = board.castling_rooks[oo];
    let r2 = board.castling_rooks[ooo];
    let h1 = board.castling_rights[oo];
    let h2 = board.castling_rights[ooo];
    proof {
        assert(board.castling_sound(oo as int));
        assert(board.castling_sound(ooo as int));
    }
    let c1 = h1 && board.is_castle_move_legal(ksq, r1);
    let c2 = h2 && board.is_castle_move_legal(ksq, r2);
    proof {
        assert forall|m: Move| castle_class(*board, m) implies m.src() == ksq.at() && ((c1 && m.dst() == r1.at()) || (c2
            && m.dst() == r2.at())) by {
            assert(b[m.src()] == rules::man(us, PieceType::King));
            let i = choose|i: int|
                0 <= i < 4 && position::castling_side(i) == us && #[trigger] board.castling_rights[i]
                    && board.castling_rooks[i].at() == m.dst();
            assert(i == oo || i == ooo);
        }
    }
    if c1 {
        let mv = Move::new(ksq, r1, Move::CASTLE);
        acc.push(mv);
        proof {
            lemma_push(l0, mv);
            assert(castle_class(*board, mv));
        }
    }
    let ghost l1 = acc@;
    if c2 {
        let mv = Move::new(ksq, r2, Move::CASTLE);
        acc.push(mv);
        proof {
            lemma_push(l1, mv);
            assert(castle_class(*board, mv));
        }
    }
    proof {
        assert forall|m: Move| #[trigger] acc@.contains(m) <==> l0.contains(m) || castle_class(*board, m) by {
            if castle_class(*board, m) {
                if c1 && m.dst() == r1.at() {
                    let mv = l1[l0.len() as int];
                    Move::lemma_fields(m, mv);
                } else {
                    let mv = acc@[l1.len() as int];
                    Move::lemma_fields(m, mv);
                }
            }
        }
    }
}

/// Emits everything.
fn gen_all(board: &Position, acc: &mut MoveList, tactical: bool)
    requires
        board.wf(),
        old(acc)@.len() == 0,
    ensures
        final(acc)@.no_duplicates(),
        forall|m: Move| #[trigger]
            final(acc)@.contains(m) <==> m.canonical() && legal::pseudo_legal(*board, m) && kept(tactical, m),
{
    let ghost l0 = acc@;
    gen_pawns(board, acc, tactical);
    let ghost l1 = acc@;
    gen_pieces(board, acc, tactical);
    let ghost l2 = acc@;
    if !tactical {
        gen_castling(board, acc);
    }
    proof {
        let k1 = |m: Move| pawn_class(*board, tactical, m);
        let k2 = |m: Move| piece_class(*board, tactical, m);
        let k3 = |m: Move| !tactical && castle_class(*board, m);
        assert(grown(l0, l1, k1));
        assert(grown(l1, l2, k2));
        assert(grown(l2, acc@, k3)) by {
            if !tactical {
                let c = |m: Move| castle_class(*board, m);
                assert(grown(l2, acc@, c));
                assert(k3 =~= c);
            }
        }
        let k12 = |m: Move| k1(m) || k2(m);
        let all = |m: Move| k12(m) || k3(m);
        lemma_grown_twice(l0, l1, l2, k1, k2, k12);
        lemma_grown_twice(l0, l2, acc@, k12, k3, all);
        assert(grown(l0, acc@, all));
        assert forall|m: Move| #[trigger]
            acc@.contains(m) <==> m.canonical() && legal::pseudo_legal(*board, m) && kept(tactical, m) by {
            assert(!l0.contains(m));
            assert(all(m) <==> k12(m) || k3(m));
        }
    }
}

/// Every move the side to move can play, its own king's safety aside, each once.
pub fn gen_pseudo_moves(board: &Position) -> (list: MoveList)
    requires
        board.wf(),
    ensures
        list@.no_duplicates(),
        forall|m: Move| #[trigger] list@.contains(m) <==> m.canonical() && legal::pseudo_legal(*board, m),
{
    let mut list = MoveList::new();
    gen_all(board, &mut list, false);
    list
}

/// The captures and promotions among the pseudo-legal moves, each once.
pub fn gen_tactical_moves(board: &Position) -> (list: MoveList)
    requires
        board.wf(),
    ensures
        list@.no_duplicates(),
        forall|m: Move| #[trigger]
            list@.contains(m) <==> m.canonical() && legal::pseudo_legal(*board, m) && (m.captures() || m.promotes()),
{
    let mut list = MoveList::new();
    gen_all(board, &mut list, true);
    list
}

/// Every strictly legal move, each once.
pub fn gen_legal_moves(board: &Position) -> (list: MoveList)
    requires
        board.wf(),
    ensures
        list@.no_duplicates(),
        forall|m: Move| #[trigger] list@.contains(m) <==> m.canonical() && legal::legal(*board, m),
{
    let mut list = MoveList::new();
    let pseudo = gen_pseudo_moves(board);
    let opp = board.stm.opposite();
    let ksq = board.king_square(board.stm);
    let pinned = board.king_blockers();
    let checkers = board.checkers();
    let mut i: usize = 0;
    while i < pseudo.len()
        invariant
            board.wf(),
            i <= pseudo@.len(),
            pseudo@.no_duplicates(),
            forall|m: Move| #[trigger] pseudo@.contains(m) <==> m.canonical() && legal::pseudo_legal(*board, m),
            ksq.ok(),
            ksq.at() == position::king_of(board.board(), board.stm),
            opp == board.stm.other(),
            forall|s: int| #[trigger] pinned.has(s) <==> rules::blocks(board.board(), opp, ksq.at(), s),
            forall|a: int| #[trigger] checkers.has(a) <==> rules::hits(board.board(), opp, a, ksq.at()),
            list@.no_duplicates(),
            forall|m: Move| #[trigger]
                list@.contains(m) <==> (exists|j: int| 0 <= j < i && #[trigger] pseudo@[j] == m) && legal::king_safe_after(
                    *board,
                    m,
                ),
        decreases pseudo@.len() - i,
    {
        let ghost l0 = list@;
        let mv = pseudo.get(i);
        assert(pseudo@.contains(mv));
        if is_legal(board, mv, ksq, pinned, checkers, opp) {
            list.push(mv);
            proof {
                lemma_push(l0, mv);
                assert(!l0.contains(mv));
            }
        }
        i = i + 1;
        proof {
            assert forall|m: Move| #[trigger]
                list@.contains(m) <==> (exists|j: int| 0 <= j < i && #[trigger] pseudo@[j] == m) && legal::king_safe_after(
                    *board,
                    m,
                ) by {
                if l0.contains(m) {
                    let j = choose|j: int| 0 <= j < i - 1 && #[trigger] pseudo@[j] == m;
                    assert(pseudo@[j] == m);
                }
                if m == mv {
                    assert(pseudo@[i - 1] == m);
                }
            }
        }
    }
    proof {
        assert forall|m: Move| #[trigger] list@.contains(m) <==> m.canonical() && legal::legal(*board, m) by {
            if list@.contains(m) {
                let j = choose|j: int| 0 <= j < i && #[trigger] pseudo@[j] == m;
                assert(pseudo@.contains(m));
            }
            if m.canonical() && legal::legal(*board, m) {
                assert(pseudo@.contains(m));
                let j = choose|j: int| 0 <= j < pseudo@.len() && pseudo@[j] == m;
                assert(pseudo@[j] == m);
            }
        }
    }
    list
}

/// The validators accept just the moves that generation hands out: what guards the board
/// against a move read out of a table lets every legal move pass, and no other.
pub proof fn law_validators_accept_what_is_generated(p: Position, list: Seq<Move>, m: Move)
    requires
        p.wf(),
        m.canonical(),
        forall|x: Move| #[trigger] list.contains(x) <==> x.canonical() && legal::legal(p, x),
    ensures
        list.contains(m) <==> legal::pseudo_legal(p, m) && legal::king_safe_after(p, m),
{
}

/// A list without duplicates holds each of its moves once.
pub proof fn lemma_counted(list: Seq<Move>)
    requires
        list.no_duplicates(),
    ensures
        forall|m: Move| #[trigger]
            list.to_multiset().count(m) == (if list.contains(m) {
                1nat
            } else {
                0
            }),
{
    broadcast use vstd::seq_lib::group_to_multiset_ensures;

    list.lemma_multiset_has_no_duplicates();
    assert forall|m: Move| #[trigger]
        list.to_multiset().count(m) == (if list.contains(m) {
            1nat
        } else {
            0
        }) by {
        if list.contains(m) {
            assert(list.to_multiset().contains(m));
        }
    }
}

/// The pseudo-legal moves are generated in full, each once, and nothing else is: `list` is what
/// [`gen_pseudo_moves`] gives, and `raw` any word whose flag is in use.
pub proof fn law_pseudo_legal_moves_come_once(p: Position, list: Seq<Move>, raw: u16)
    requires
        p.wf(),
        list.no_duplicates(),
        forall|m: Move| #[trigger] list.contains(m) <==> m.canonical() && legal::pseudo_legal(p, m),
        Move(raw).canonical(),
    ensures
        list.to_multiset().count(Move(raw)) == (if legal::pseudo_legal(p, Move(raw)) {
            1nat
        } else {
            0
        }),
{
    lemma_counted(list);
}

/// The tactical moves are the captures and promotions among the pseudo-legal moves, each once:
/// `all` is what [`gen_pseudo_moves`] gives and `list` what [`gen_tactical_moves`] gives.
pub proof fn law_tactical_moves_are_captures_and_promotions(p: Position, all: Seq<Move>, list: Seq<Move>)
    requires
        p.wf(),
        all.no_duplicates(),
        forall|m: Move| #[trigger] all.contains(m) <==> m.canonical() && legal::pseudo_legal(p, m),
        list.no_duplicates(),
        forall|m: Move| #[trigger]
            list.contains(m) <==> m.canonical() && legal::pseudo_legal(p, m) && (m.captures() || m.promotes()),
    ensures
        forall|m: Move| #[trigger]
            list.to_multiset().count(m) == (if m.captures() || m.promotes() {
                all.to_multiset().count(m)
            } else {
                0
            }),
        forall|m: Move| #[trigger] list.contains(m) ==> !m.castles(),
{
    lemma_counted(all);
    lemma_counted(list);
}

/// The legal moves are the pseudo-legal ones that the validators let pass, each once, and none
/// leaves the mover's king attacked: `list` is what [`gen_legal_moves`] gives.
pub proof fn law_legal_moves_come_once(p: Position, list: Seq<Move>, raw: u16)
    requires
        p.wf(),
        list.no_duplicates(),
        forall|m: Move| #[trigger] list.contains(m) <==> m.canonical() && legal::legal(p, m),
        Move(raw).canonical(),
    ensures
        list.contains(Move(raw)) <==> legal::pseudo_legal(p, Move(raw)) && legal::king_safe_after(p, Move(raw)),
        list.to_multiset().count(Move(raw)) <= 1,
        list.contains(Move(raw)) ==> !rules::attacked(
            rules::after(p.board(), p.stm, Move(raw)),
            p.stm.other(),
            rules::king_after(position::king_of(p.board(), p.stm), Move(raw)),
        ),
{
    lemma_counted(list);
}

} // verus!
