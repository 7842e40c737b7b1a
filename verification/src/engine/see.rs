//! Static exchange evaluation.
//!
//! `see_ge(pos, mv, threshold)` answers in time linear in the attacker count: will the
//! moving side net at least `threshold` material if both sides recapture on the move's
//! destination, cheapest man first, and stop when it suits them?
//!
//! One `balance` integer is flipped per recapture: no scratch array, no pass of minimax at
//! the end.

use vstd::prelude::*;

use crate::chess::attacks::{atk_bishop, atk_rook, line_bb};
use crate::chess::bitboard::{self, Bitboard};
use crate::chess::geom;
use crate::chess::moves::Move;
use crate::chess::pins::Pins;
use crate::chess::position::{self, Position};
use crate::chess::rules;
use crate::chess::types::{Color, PieceType, Square};

verus! {

/// What a man is worth in an exchange, pawn first: a scale of its own, since thresholds
/// are stated in it. The king is worth nothing, for a chain that reaches it has ended.
pub const SEE_VALUE: [i32; 7] = [92, 373, 372, 568, 1160, 0, 0];

/// What a man of kind `pt` is worth in an exchange.
pub open spec fn worth(pt: PieceType) -> int {
    SEE_VALUE[pt.index()] as int
}

/// What a man of kind `pt` is worth in an exchange.
pub fn val(pt: PieceType) -> (v: i32)
    ensures
        v == worth(pt),
        0 <= v <= 1160,
{
    SEE_VALUE[pt.idx()]
}

/// A man pinned to its king that would leave the pin line by capturing on `to`.
pub open spec fn pin_bars(p: Position, to: int, a: int) -> bool {
    exists|c: Color|
        #![trigger c.index()]
        rules::blocks(p.board(), c.other(), position::king_of(p.board(), c), a) && !geom::on_line(
            position::king_of(p.board(), c),
            to,
            a,
        )
}

/// The man of side `s` on `a` can capture on `to` while the men of `occ` are on the board.
pub open spec fn bears(p: Position, to: int, occ: Bitboard, s: Color, a: int) -> bool {
    &&& occ.has(a)
    &&& rules::owned(p.board(), a, s)
    &&& rules::reaches(occ, s, p.board()[a]->0.kind, a, to)
    &&& !pin_bars(p, to, a)
}

/// Some man of side `s` can capture on `to`.
pub open spec fn bears_any(p: Position, to: int, occ: Bitboard, s: Color) -> bool {
    exists|a: int| #[trigger] bears(p, to, occ, s, a)
}

/// The rank of a capturer: cheaper kinds first, lower squares first among equals.
pub open spec fn cost(p: Position, a: int) -> int {
    p.board()[a]->0.kind.index() * 64 + a
}

/// The man on `a` is the cheapest of side `s`, kings apart, that can capture on `to`.
pub open spec fn cheapest(p: Position, to: int, occ: Bitboard, s: Color, a: int) -> bool {
    &&& bears(p, to, occ, s, a)
    &&& p.board()[a]->0.kind != PieceType::King
    &&& forall|x: int| #[trigger]
        bears(p, to, occ, s, x) && p.board()[x]->0.kind != PieceType::King ==> cost(p, a) <= cost(p, x)
}

/// The set without one square.
pub open spec fn without(occ: Bitboard, a: int) -> Bitboard {
    Bitboard(occ.0 & !(1u64 << (a as u64)))
}

proof fn lemma_without_word(x: u64, k: u64, t: u64)
    by (bit_vector)
    requires
        k < 64,
        t < 64,
    ensures
        (x >> k) & 1 == 1 ==> x & !(1u64 << k) < x,
        (((x & !(1u64 << k)) >> t) & 1 == 1) <==> ((x >> t) & 1 == 1 && t != k),
{
}

/// Taking a square out of a set.
pub proof fn lemma_without(occ: Bitboard, a: int)
    requires
        occ.has(a),
    ensures
        without(occ, a).0 < occ.0,
        forall|s: int| #[trigger] without(occ, a).has(s) <==> occ.has(s) && s != a,
{
    reveal(Bitboard::has);
    lemma_without_word(occ.0, a as u64, 0);
    assert forall|s: int| #[trigger] without(occ, a).has(s) <==> occ.has(s) && s != a by {
        if 0 <= s < 64 {
            lemma_without_word(occ.0, a as u64, s as u64);
        }
    }
}

/// What side `s` gains at best on `to`, where a man worth `v` stands: nothing if it cannot
/// or would rather not capture, else that man less what the enemy gains in turn. A king
/// only captures what is no longer defended.
pub open spec fn reply(p: Position, to: int, occ: Bitboard, s: Color, v: int) -> int
    decreases occ.0,
{
    if exists|a: int| #[trigger] cheapest(p, to, occ, s, a) {
        let a = choose|a: int| #[trigger] cheapest(p, to, occ, s, a);
        proof {
            lemma_without(occ, a);
        }
        let net = v - reply(p, to, without(occ, a), s.other(), worth(p.board()[a]->0.kind));
        if net > 0 {
            net
        } else {
            0
        }
    } else if bears_any(p, to, occ, s) && !bears_any(p, to, occ, s.other()) {
        v
    } else {
        0
    }
}

/// What the capture itself brings.
pub open spec fn first_gain(p: Position, mv: Move) -> int {
    let on_to = match p.board()[mv.dst()] {
        Some(m) => worth(m.kind),
        None => 0,
    };
    if mv.takes_ep() {
        worth(PieceType::Pawn)
    } else if mv.promotes() {
        on_to + worth(mv.promoted()) - worth(PieceType::Pawn)
    } else {
        on_to
    }
}

/// The kind of man that stands on the destination after the move.
pub open spec fn arriving(p: Position, mv: Move) -> PieceType {
    if mv.takes_ep() {
        PieceType::Pawn
    } else if mv.promotes() {
        mv.promoted()
    } else {
        p.board()[mv.src()]->0.kind
    }
}

/// The men left to fight over the destination.
pub open spec fn contenders(p: Position, mv: Move, occ: Bitboard) -> bool {
    forall|s: int| #[trigger]
        occ.has(s) <==> rules::occupied(p.board(), s) && s != mv.src() && !(mv.takes_ep() && s == rules::ep_victim(
            p.board()[mv.src()]->0.color,
            mv.dst(),
        ))
}

/// The worth of the exchange that `mv` opens.
pub open spec fn exchange(p: Position, mv: Move) -> int {
    let occ = choose|occ: Bitboard| contenders(p, mv, occ);
    first_gain(p, mv) - reply(p, mv.dst(), occ, p.board()[mv.src()]->0.color.other(), worth(arriving(p, mv)))
}

/// No side gains more than the man it captures, nor less than nothing.
proof fn lemma_reply_bounds(p: Position, to: int, occ: Bitboard, s: Color, v: int)
    requires
        v >= 0,
    ensures
        0 <= reply(p, to, occ, s, v) <= v,
    decreases occ.0,
{
    if exists|a: int| #[trigger] cheapest(p, to, occ, s, a) {
        let a = choose|a: int| #[trigger] cheapest(p, to, occ, s, a);
        lemma_without(occ, a);
        assert(worth(p.board()[a]->0.kind) >= 0);
        lemma_reply_bounds(p, to, without(occ, a), s.other(), worth(p.board()[a]->0.kind));
    }
}

/// The cheapest capturer is unique.
proof fn lemma_cheapest(p: Position, to: int, occ: Bitboard, s: Color, a: int)
    requires
        cheapest(p, to, occ, s, a),
    ensures
        forall|x: int| #[trigger] cheapest(p, to, occ, s, x) ==> x == a,
{
    assert forall|x: int| #[trigger] cheapest(p, to, occ, s, x) implies x == a by {
        assert(0 <= a < 64 && 0 <= x < 64) by {
            reveal(Bitboard::has);
        }
        assert(cost(p, a) == cost(p, x));
    }
}

/// The men pinned off `to`.
fn pin_excluded(p: &Position, pins: &Pins, to: Square) -> (r: Bitboard)
    requires
        pins.of(*p),
        to.ok(),
    ensures
        forall|a: int| #[trigger] r.has(a) <==> pin_bars(*p, to.at(), a),
{
    let w = pins.blockers(Color::White).and(line_bb(pins.king(Color::White), to).not());
    let b = pins.blockers(Color::Black).and(line_bb(pins.king(Color::Black), to).not());
    let r = w.or(b);
    proof {
        assert forall|a: int| #[trigger] r.has(a) <==> pin_bars(*p, to.at(), a) by {
            reveal(Bitboard::has);
            assert(pins.blocker_bb[Color::White.index()].has(a) <==> rules::blocks(
                p.board(),
                Color::White.other(),
                position::king_of(p.board(), Color::White),
                a,
            ));
            assert(pins.blocker_bb[Color::Black.index()].has(a) <==> rules::blocks(
                p.board(),
                Color::Black.other(),
                position::king_of(p.board(), Color::Black),
                a,
            ));
            assert(pins.king_sq[Color::White.index()].at() == position::king_of(p.board(), Color::White));
            assert(pins.king_sq[Color::Black.index()].at() == position::king_of(p.board(), Color::Black));
        }
    }
    r
}

/// The set of men of both sides that can capture on `to`.
spec fn is_bearing(p: Position, to: int, occ: Bitboard, set: Bitboard) -> bool {
    forall|a: int| #[trigger]
        set.has(a) <==> bears(p, to, occ, Color::White, a) || bears(p, to, occ, Color::Black, a)
}

/// What the capturer's departure opens: lines through its square, which only sliders use.
proof fn lemma_reveal(p: Position, to: int, occ: Bitboard, left: Bitboard, gone: int, s: Color, old_set: Bitboard, new_set: Bitboard)
    requires
        p.mirrored(),
        geom::on_board(to),
        cheapest(p, to, occ, s, gone),
        forall|x: int| #[trigger] left.has(x) <==> occ.has(x) && x != gone,
        is_bearing(p, to, occ, old_set),
        ({
            let b = p.board();
            let k = b[gone]->0.kind;
            forall|a: int| #[trigger]
                new_set.has(a) <==> left.has(a) && !pin_bars(p, to, a) && {
                    ||| old_set.has(a)
                    ||| (k == PieceType::Pawn || k == PieceType::Bishop || k == PieceType::Queen) && rules::occupied(b, a)
                        && b[a]->0.kind.is_diag() && geom::bishop_sees(left, to, a)
                    ||| (k == PieceType::Rook || k == PieceType::Queen) && rules::occupied(b, a) && b[a]->0.kind.is_ortho()
                        && geom::rook_sees(left, to, a)
                }
        }),
    ensures
        is_bearing(p, to, left, new_set),
{
    let b = p.board();
    let k = b[gone]->0.kind;
    assert forall|a: int| #[trigger]
        new_set.has(a) <==> bears(p, to, left, Color::White, a) || bears(p, to, left, Color::Black, a) by {
        if left.has(a) && rules::occupied(b, a) {
            let c = b[a]->0.color;
            let ka = b[a]->0.kind;
            assert(ka != PieceType::Empty);
            assert(k != PieceType::Empty);
            rules::lemma_clear_symmetric(left, a, to);
            rules::lemma_clear_symmetric(occ, a, to);
            assert(geom::clear(occ, a, to) ==> geom::clear(left, a, to));
            if geom::clear(left, a, to) && !geom::clear(occ, a, to) {
                let x = choose|x: int| #[trigger] occ.has(x) && geom::between(a, to, x);
                if x != gone {
                    assert(left.has(x));
                }
                assert(geom::between(a, to, gone));
            }
            assert(rules::reaches(occ, c, ka, a, to) ==> rules::reaches(left, c, ka, a, to));
            if rules::reaches(left, c, ka, a, to) && !rules::reaches(occ, c, ka, a, to) {
                assert(geom::between(a, to, gone));
                assert(rules::reaches(occ, s, k, gone, to));
            }
        }
    }
}

/// The cheapest capturer among `mine`, kings apart.
fn pick(p: &Position, mine: Bitboard) -> (r: Option<(PieceType, Square)>)
    requires
        p.mirrored(),
        forall|a: int| #[trigger] mine.has(a) ==> rules::occupied(p.board(), a),
    ensures
        match r {
            Some(t) => {
                &&& t.1.ok()
                &&& mine.has(t.1.at())
                &&& p.board()[t.1.at()]->0.kind == t.0
                &&& t.0 != PieceType::King
                &&& forall|x: int| #[trigger]
                    mine.has(x) && p.board()[x]->0.kind != PieceType::King ==> cost(*p, t.1.at()) <= cost(*p, x)
            },
            None => forall|x: int| #[trigger] mine.has(x) ==> p.board()[x]->0.kind == PieceType::King,
        },
{
    let order: [PieceType; 5] = [
        PieceType::Pawn,
        PieceType::Knight,
        PieceType::Bishop,
        PieceType::Rook,
        PieceType::Queen,
    ];
    let mut i: usize = 0;
    while i < 5
        invariant
            i <= 5,
            p.mirrored(),
            order@ == seq![
                PieceType::Pawn,
                PieceType::Knight,
                PieceType::Bishop,
                PieceType::Rook,
                PieceType::Queen,
            ],
            forall|a: int| #[trigger] mine.has(a) ==> rules::occupied(p.board(), a),
            forall|x: int| #[trigger] mine.has(x) ==> p.board()[x]->0.kind.index() >= i,
        decreases 5 - i,
    {
        let pt = order[i];
        assert(pt.index() == i);
        let of_kind = mine.and(p.role(pt));
        if of_kind.is_not_empty() {
            let sq = of_kind.lsb();
            proof {
                assert forall|x: int| #[trigger] mine.has(x) && p.board()[x]->0.kind != PieceType::King implies cost(
                    *p,
                    sq.at(),
                ) <= cost(*p, x) by {
                    if p.board()[x]->0.kind == pt {
                        assert(of_kind.has(x));
                    } else {
                        assert(p.board()[x]->0.kind.index() != i);
                        assert(rules::occupied(p.board(), x));
                    }
                }
            }
            return Some((pt, sq));
        }
        proof {
            assert forall|x: int| #[trigger] mine.has(x) implies p.board()[x]->0.kind.index() >= i + 1 by {
                if p.board()[x]->0.kind.index() == i {
                    assert(p.board()[x]->0.kind == pt);
                    assert(of_kind.has(x));
                }
            }
        }
        i = i + 1;
    }
    proof {
        assert forall|x: int| #[trigger] mine.has(x) implies p.board()[x]->0.kind == PieceType::King by {
            assert(p.board()[x] is Some);
            assert(p.board()[x]->0.kind != PieceType::Empty);
        }
    }
    None
}

/// Whether the exchange on `mv`'s destination brings the side making `mv` at least
/// `threshold`.
///
/// En passant, promotions, castling, pinned men and sliders behind sliders are all
/// accounted for. A castling captures nothing and meets every threshold up to zero.
pub fn see_ge(pos: &Position, mv: Move, threshold: i32, pins: &Pins) -> (r: bool)
    requires
        pos.mirrored(),
        position::one_king_each(pos.board()),
        pins.of(*pos),
        pos.board()[mv.src()] is Some,
        mv.takes_ep() ==> rules::occupied(
            pos.board(),
            rules::ep_victim(pos.board()[mv.src()]->0.color, mv.dst()),
        ) && mv.src() != rules::ep_victim(pos.board()[mv.src()]->0.color, mv.dst()),
        -1_000_000_000 <= threshold <= 1_000_000_000,
    ensures
        r == (if mv.castles() {
            threshold <= 0
        } else {
            exchange(*pos, mv) >= threshold
        }),
{
    if mv.is_castling() {
        return threshold <= 0;
    }
    let from = mv.from();
    let to = mv.to();
    let ghost p = *pos;
    let ghost b = pos.board();
    let ghost t = to.at();
    let caller = match pos.color_at(from) {
        Some(c) => c,
        None => Color::White,
    };
    let (gain, attacker): (i32, PieceType) = if mv.is_en_passant() {
        (val(PieceType::Pawn), PieceType::Pawn)
    } else {
        match mv.promo() {
            Some(promo) => (val(pos.piece_at(to)) + (val(promo) - val(PieceType::Pawn)), promo),
            None => (val(pos.piece_at(to)), pos.piece_at(from)),
        }
    };
    assert(gain == first_gain(p, mv));
    assert(attacker == arriving(p, mv));
    // The men left on the board once the capturer has left its square.
    let mut occ = pos.occ.and(from.bitboard().not());
    if mv.is_en_passant() {
        let victim = match caller {
            Color::White => Square(to.0 - 8),
            Color::Black => Square(to.0 + 8),
        };
        occ = occ.and(victim.bitboard().not());
    }
    let ghost first = choose|o: Bitboard| contenders(p, mv, o);
    proof {
        assert(contenders(p, mv, occ));
        assert(contenders(p, mv, first));
        assert forall|s: int| 0 <= s < 64 implies #[trigger] occ.has(s) == first.has(s) by {}
        Bitboard::lemma_ext(occ, first);
        lemma_reply_bounds(p, t, occ, caller.other(), worth(attacker));
    }
    let mut balance: i32 = gain - threshold;
    if balance < 0 {
        return false;
    }
    balance = val(attacker) - balance;
    if balance <= 0 {
        return true;
    }
    let excluded = pin_excluded(pos, pins, to);
    let open = excluded.not();
    let white = pos.attackers(to, Color::White, occ);
    let black = pos.attackers(to, Color::Black, occ);
    let mut attackers = white.or(black).and(occ).and(open);
    let diag = pos.role(PieceType::Bishop).or(pos.role(PieceType::Queen));
    let orth = pos.role(PieceType::Rook).or(pos.role(PieceType::Queen));
    let mut stm = caller;
    let mut flipped = false;
    let ghost mut v: int = worth(attacker);
    let ghost goal = exchange(p, mv) >= threshold;
    proof {
        assert forall|a: int| #[trigger]
            attackers.has(a) <==> bears(p, t, occ, Color::White, a) || bears(p, t, occ, Color::Black, a) by {
            reveal(Bitboard::has);
        }
    }
    loop
        invariant
            p == *pos,
            b == pos.board(),
            t == to.at(),
            to.ok(),
            pos.mirrored(),
            forall|a: int| #[trigger] excluded.has(a) <==> pin_bars(p, t, a),
            forall|a: int| #[trigger] open.has(a) <==> 0 <= a < 64 && !excluded.has(a),
            forall|a: int| #[trigger] diag.has(a) <==> rules::occupied(b, a) && b[a]->0.kind.is_diag(),
            forall|a: int| #[trigger] orth.has(a) <==> rules::occupied(b, a) && b[a]->0.kind.is_ortho(),
            is_bearing(p, t, occ, attackers),
            forall|a: int| #[trigger] occ.has(a) ==> rules::occupied(b, a),
            0 <= v <= 1160,
            0 <= balance <= v,
            !flipped ==> balance > 0,
            flipped ==> v - balance > 0,
            goal == (if flipped {
                reply(p, t, occ, stm.other(), v) >= v - balance
            } else {
                reply(p, t, occ, stm.other(), v) <= v - balance
            }),
            goal == (exchange(p, mv) >= threshold),
            !mv.castles(),
        decreases occ.0,
    {
        stm = stm.opposite();
        let mine = attackers.and(pos.side(stm));
        proof {
            assert forall|a: int| #[trigger] mine.has(a) <==> bears(p, t, occ, stm, a) by {
                assert(attackers.has(a) <==> bears(p, t, occ, Color::White, a) || bears(p, t, occ, Color::Black, a));
            }
        }
        if mine.is_empty() {
            proof {
                assert forall|a: int| !#[trigger] cheapest(p, t, occ, stm, a) by {
                    assert(!mine.has(a));
                }
                assert(!bears_any(p, t, occ, stm)) by {
                    if bears_any(p, t, occ, stm) {
                        let a = choose|a: int| #[trigger] bears(p, t, occ, stm, a);
                        assert(mine.has(a));
                    }
                }
            }
            return !flipped;
        }
        let picked = pick(pos, mine);
        let (lva, lva_sq) = match picked {
            Some(x) => x,
            None => {
                // A king may not capture into check.
                let theirs = attackers.and(pos.side(stm.opposite()));
                proof {
                    assert forall|a: int| !#[trigger] cheapest(p, t, occ, stm, a) by {
                        if cheapest(p, t, occ, stm, a) {
                            assert(mine.has(a));
                        }
                    }
                    let a = mine.lemma_nonempty();
                    assert(bears(p, t, occ, stm, a));
                    assert forall|a: int| #[trigger] theirs.has(a) <==> bears(p, t, occ, stm.other(), a) by {
                        assert(attackers.has(a) <==> bears(p, t, occ, Color::White, a) || bears(
                            p,
                            t,
                            occ,
                            Color::Black,
                            a,
                        ));
                    }
                    if theirs.0 != 0 {
                        let x = theirs.lemma_nonempty();
                        assert(bears(p, t, occ, stm.other(), x));
                    } else if bears_any(p, t, occ, stm.other()) {
                        let x = choose|x: int| #[trigger] bears(p, t, occ, stm.other(), x);
                        assert(theirs.has(x));
                        bitboard::lemma_zero(x);
                        assert(theirs == Bitboard(0));
                    }
                }
                return if theirs.is_not_empty() {
                    !flipped
                } else {
                    flipped
                };
            },
        };
        let ghost g = lva_sq.at();
        let ghost occ0 = occ;
        let ghost set0 = attackers;
        proof {
            assert(bears(p, t, occ, stm, g));
            assert(cheapest(p, t, occ, stm, g)) by {
                assert forall|x: int| #[trigger]
                    bears(p, t, occ, stm, x) && b[x]->0.kind != PieceType::King implies cost(p, g) <= cost(p, x) by {
                    assert(mine.has(x));
                }
            }
            lemma_cheapest(p, t, occ, stm, g);
            lemma_without(occ, g);
        }
        occ = occ.and(lva_sq.bitboard().not());
        proof {
            assert forall|s: int| 0 <= s < 64 implies #[trigger] occ.has(s) == without(occ0, g).has(s) by {}
            Bitboard::lemma_ext(occ, without(occ0, g));
            lemma_reply_bounds(p, t, occ, stm.other(), worth(lva));
            reveal(Bitboard::has);
        }
        // Sliders behind the vacated square come into play; behind a knight there is no line.
        let revealed = match lva {
            PieceType::Pawn | PieceType::Bishop => atk_bishop(to, occ).and(diag),
            PieceType::Rook => atk_rook(to, occ).and(orth),
            PieceType::Queen => atk_bishop(to, occ).and(diag).or(atk_rook(to, occ).and(orth)),
            _ => Bitboard::empty(),
        };
        attackers = attackers.or(revealed).and(occ).and(open);
        proof {
            lemma_reveal(p, t, occ0, occ, g, stm, set0, attackers);
        }
        // The next player's running deficit is this capturer less the previous player's.
        // Ties go to the caller.
        let step: i32 = val(lva) - balance;
        if step < (if flipped {
            1
        } else {
            0
        }) {
            return flipped;
        }
        balance = step;
        proof {
            v = worth(lva);
        }
        flipped = !flipped;
    }
}

/// An exchange that brings an amount brings every lesser one.
pub proof fn law_a_lower_threshold_is_met_too(p: Position, mv: Move, a: int, b: int)
    requires
        b <= a,
        if mv.castles() {
            a <= 0
        } else {
            exchange(p, mv) >= a
        },
    ensures
        if mv.castles() {
            b <= 0
        } else {
            exchange(p, mv) >= b
        },
{
}

/// A king does not capture what a man of the other side still protects: where only kings of side
/// `s` bear on the square and a man of the other side does too, side `s` gains nothing.
pub proof fn law_a_king_captures_nothing_protected(p: Position, to: int, occ: Bitboard, s: Color, v: int, guard: int)
    requires
        forall|a: int| #[trigger] bears(p, to, occ, s, a) ==> p.board()[a]->0.kind == PieceType::King,
        bears(p, to, occ, s.other(), guard),
    ensures
        reply(p, to, occ, s, v) == 0,
{
}

/// A king captures what nothing protects, and gains it.
pub proof fn law_a_king_captures_what_is_left_alone(p: Position, to: int, occ: Bitboard, s: Color, v: int, king: int)
    requires
        forall|a: int| #[trigger] bears(p, to, occ, s, a) ==> p.board()[a]->0.kind == PieceType::King,
        bears(p, to, occ, s, king),
        forall|a: int| !#[trigger] bears(p, to, occ, s.other(), a),
    ensures
        reply(p, to, occ, s, v) == v,
{
}

/// A side without a man that bears on the square gains nothing there.
pub proof fn law_who_cannot_capture_gains_nothing(p: Position, to: int, occ: Bitboard, s: Color, v: int)
    requires
        forall|a: int| !#[trigger] bears(p, to, occ, s, a),
    ensures
        reply(p, to, occ, s, v) == 0,
{
}

/// Nobody has to capture, and nobody gains more than stands on the square.
pub proof fn law_a_reply_gains_between_nothing_and_the_man(p: Position, to: int, occ: Bitboard, s: Color, v: int)
    requires
        v >= 0,
    ensures
        0 <= reply(p, to, occ, s, v) <= v,
{
    lemma_reply_bounds(p, to, occ, s, v);
}

/// A man that captures risks itself and no more, and a capture that nobody can answer gains the
/// whole man: `a` is the capturer, the cheapest there is, and `left` the men that stay.
pub proof fn law_a_capturer_risks_itself(p: Position, to: int, occ: Bitboard, left: Bitboard, s: Color, v: int, a: int)
    requires
        v >= 0,
        bears(p, to, occ, s, a),
        p.board()[a]->0.kind != PieceType::King,
        forall|x: int| #[trigger]
            bears(p, to, occ, s, x) && x != a ==> p.board()[x]->0.kind == PieceType::King || worth(p.board()[x]->0.kind) > worth(
                p.board()[a]->0.kind,
            ) + 1,
        forall|x: int| #[trigger] left.has(x) <==> occ.has(x) && x != a,
    ensures
        reply(p, to, occ, s, v) >= v - worth(p.board()[a]->0.kind),
        (forall|x: int| !#[trigger] bears(p, to, left, s.other(), x)) ==> reply(p, to, occ, s, v) == v,
        // What the capture gains is what the other side's best answer leaves.
        reply(p, to, occ, s, v) == 0 || reply(p, to, occ, s, v) == v - reply(
            p,
            to,
            left,
            s.other(),
            worth(p.board()[a]->0.kind),
        ),
        reply(p, to, occ, s, v) >= v - reply(p, to, left, s.other(), worth(p.board()[a]->0.kind)),
{
    assert(cheapest(p, to, occ, s, a)) by {
        assert forall|x: int| #[trigger]
            bears(p, to, occ, s, x) && p.board()[x]->0.kind != PieceType::King implies cost(p, a) <= cost(p, x) by {
            assert(0 <= a < 64 && 0 <= x < 64) by {
                reveal(Bitboard::has);
            }
        }
    }
    lemma_cheapest(p, to, occ, s, a);
    lemma_without(occ, a);
    assert(without(occ, a) == left) by {
        assert forall|x: int| 0 <= x < 64 implies #[trigger] without(occ, a).has(x) == left.has(x) by {}
        Bitboard::lemma_ext(without(occ, a), left);
    }
    let w = worth(p.board()[a]->0.kind);
    lemma_reply_bounds(p, to, left, s.other(), w);
    if forall|x: int| !#[trigger] bears(p, to, left, s.other(), x) {
        law_who_cannot_capture_gains_nothing(p, to, left, s.other(), w);
    }
}

/// A man pinned to its king does not capture off the line of the pin: it bears on nothing there.
pub proof fn law_a_pinned_man_stays_on_its_line(p: Position, to: int, occ: Bitboard, c: Color, a: int)
    requires
        rules::blocks(p.board(), c.other(), position::king_of(p.board(), c), a),
        !geom::on_line(position::king_of(p.board(), c), to, a),
    ensures
        !bears(p, to, occ, Color::White, a),
        !bears(p, to, occ, Color::Black, a),
{
    assert(c.index() == 0 || c.index() == 1);
    assert(pin_bars(p, to, a));
}

/// A man that is not pinned bears on what it attacks past the men on the board.
pub proof fn law_a_free_man_bears_on_what_it_attacks(p: Position, to: int, occ: Bitboard, a: int)
    requires
        rules::occupied(p.board(), a),
        occ.has(a),
        rules::reaches(occ, p.board()[a]->0.color, p.board()[a]->0.kind, a, to),
        forall|c: Color| !rules::blocks(p.board(), #[trigger] c.other(), position::king_of(p.board(), c), a),
    ensures
        bears(p, to, occ, p.board()[a]->0.color, a),
{
    assert(!pin_bars(p, to, a)) by {
        if pin_bars(p, to, a) {
            let c = choose|c: Color|
                #![trigger c.index()]
                rules::blocks(p.board(), c.other(), position::king_of(p.board(), c), a) && !geom::on_line(
                    position::king_of(p.board(), c),
                    to,
                    a,
                );
            assert(c.other() == c.other());
        }
    }
}

/// The scale of an exchange: a knight or bishop is worth about four pawns, a rook six, a queen
/// more than two rooks, and a king, which is never captured, nothing.
pub proof fn law_the_scale_of_an_exchange()
    ensures
        worth(PieceType::Pawn) == 92,
        worth(PieceType::Knight) == 373,
        worth(PieceType::Bishop) == 372,
        worth(PieceType::Rook) == 568,
        worth(PieceType::Queen) == 1160,
        worth(PieceType::King) == 0,
        worth(PieceType::Empty) == 0,
{
}

/// An exchange brings at most what the first capture gains, and at least that less the man that
/// made it. Where nobody can recapture it brings just that: the man on the square, a pawn en
/// passant, and for a promotion what the pawn gains in worth. `occ` are the men left to fight.
pub proof fn law_an_exchange_starts_with_a_capture(p: Position, mv: Move, occ: Bitboard)
    requires
        geom::on_board(mv.dst()),
        contenders(p, mv, occ),
    ensures
        ({
            let c = p.board()[mv.src()]->0.color;
            let taken = match p.board()[mv.dst()] {
                Some(m) => worth(m.kind),
                None => 0,
            };
            let gain = if mv.takes_ep() {
                92
            } else if mv.promotes() {
                taken + worth(mv.promoted()) - 92
            } else {
                taken
            };
            let risk = if mv.takes_ep() {
                92
            } else if mv.promotes() {
                worth(mv.promoted())
            } else {
                worth(p.board()[mv.src()]->0.kind)
            };
            &&& gain - risk <= exchange(p, mv) <= gain
            &&& (forall|a: int| !#[trigger] bears(p, mv.dst(), occ, c.other(), a)) ==> exchange(p, mv) == gain
            &&& exchange(p, mv) == gain - reply(p, mv.dst(), occ, c.other(), risk)
        }),
{
    let first = choose|o: Bitboard| contenders(p, mv, o);
    assert(contenders(p, mv, first));
    assert forall|s: int| 0 <= s < 64 implies #[trigger] occ.has(s) == first.has(s) by {}
    Bitboard::lemma_ext(occ, first);
    let c = p.board()[mv.src()]->0.color;
    assert(worth(arriving(p, mv)) >= 0);
    lemma_reply_bounds(p, mv.dst(), occ, c.other(), worth(arriving(p, mv)));
    if forall|a: int| !#[trigger] bears(p, mv.dst(), occ, c.other(), a) {
        law_who_cannot_capture_gains_nothing(p, mv.dst(), occ, c.other(), worth(arriving(p, mv)));
    }
}

/// The men left to fight are all on the board but the one that moves and a pawn that it takes in
/// passing.
pub proof fn law_all_other_men_are_left_to_fight(p: Position, mv: Move, occ: Bitboard, s: int)
    requires
        contenders(p, mv, occ),
        rules::occupied(p.board(), s),
    ensures
        !occ.has(mv.src()),
        s != mv.src() && !mv.takes_ep() ==> occ.has(s),
        mv.takes_ep() ==> !occ.has(rules::ep_victim(p.board()[mv.src()]->0.color, mv.dst())),
        s != mv.src() && s != rules::ep_victim(p.board()[mv.src()]->0.color, mv.dst()) ==> occ.has(s),
{
}

} // verus!
