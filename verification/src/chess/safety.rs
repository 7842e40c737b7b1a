//! Why pins, checks and a few rays decide whether a move leaves the king safe.

use vstd::prelude::*;

use crate::chess::geom;
use crate::chess::legal;
use crate::chess::moves::Move;
use crate::chess::position::{self, Position};
use crate::chess::rules::{self, Cell};
use crate::chess::types::{Color, PieceType, Square};

verus! {

/// Whether men of this kind attack along lines.
pub open spec fn slides(pt: PieceType) -> bool {
    pt.is_diag() || pt.is_ortho()
}

/// Two squares that see `k` past the same square lie on one ray from it.
proof fn lemma_same_ray(a: int, d: int, k: int, t: int)
    requires
        geom::on_board(a),
        geom::on_board(d),
        geom::on_board(k),
        geom::between(a, k, t),
        geom::between(d, k, t),
        a != d,
    ensures
        geom::between(a, k, d) || geom::between(d, k, a),
{
}

/// A square on the line of `f` and `k` that lies off the segment from `a` to `k` is cut off
/// from `f` by one end of that segment.
proof fn lemma_off_segment(a: int, k: int, f: int, t: int)
    requires
        geom::on_board(a),
        geom::on_board(k),
        geom::on_board(t),
        geom::between(a, k, f),
        geom::on_line(f, t, k),
        t != f,
        t != k,
        t != a,
        !geom::between(a, k, t),
    ensures
        geom::between(f, t, k) || geom::between(f, t, a),
{
}

/// Squares of one segment lie on one line with its ends.
proof fn lemma_on_segment(a: int, k: int, f: int, t: int)
    requires
        geom::on_board(a),
        geom::on_board(k),
        geom::on_board(t),
        geom::between(a, k, f),
        t != f,
        t == a || geom::between(a, k, t),
    ensures
        geom::on_line(f, t, k),
        geom::aligned(f, t),
{
}

/// A man attacks nothing past a man that stands between.
proof fn lemma_slider_open(b: Seq<Cell>, o: Color, a: int, k: int)
    requires
        rules::hits(b, o, a, k),
        slides(b[a]->0.kind),
    ensures
        rules::sniper(b, o, a, k),
        rules::open_between(b, a, k),
{
}

/// Men that do not slide stand next to what they attack or a knight's hop away.
proof fn lemma_leaper_adjacent(b: Seq<Cell>, o: Color, a: int, k: int, s: int)
    requires
        geom::on_board(a),
        geom::on_board(k),
        rules::hits(b, o, a, k),
        !slides(b[a]->0.kind),
    ensures
        !geom::between(a, k, s),
{
}

/// What still attacks `k` once a man of the other side has gone from `f` to `t`.
proof fn lemma_hits_after(b: Seq<Cell>, b2: Seq<Cell>, o: Color, k: int, f: int, t: int, a: int)
    requires
        rules::placement(b),
        geom::on_board(k),
        geom::on_board(f),
        geom::on_board(t),
        f != t,
        b2.len() == 64,
        b[f] is Some,
        b2[f] is None,
        b2[t] is Some,
        b2[t]->0.color != o,
        b[f]->0.color != o,
        forall|s: int| geom::on_board(s) && s != f && s != t ==> #[trigger] b2[s] == b[s],
    ensures
        rules::hits(b2, o, a, k) <==> a != t && {
            ||| rules::hits(b, o, a, k) && !geom::between(a, k, t)
            ||| rules::sniper(b, o, a, k) && rules::sole_blocker(b, a, k, f) && !geom::between(a, k, t)
        },
{
    if rules::owned(b, a, o) && a != t {
        assert(b2[a] == b[a]);
        assert(b[a]->0.kind != PieceType::Empty);
        if slides(b[a]->0.kind) {
            if rules::open_between(b2, a, k) {
                assert(!geom::between(a, k, t)) by {
                    assert(b2[t] is Some);
                }
                if !rules::open_between(b, a, k) {
                    let s = choose|s: int| geom::between(a, k, s) && !((#[trigger] b[s]) is None);
                    assert(b2[s] is None);
                    assert(s == f);
                    assert forall|x: int| geom::between(a, k, x) && x != f implies (#[trigger] b[x]) is None by {
                        assert(b2[x] is None);
                    }
                    assert(rules::sole_blocker(b, a, k, f));
                }
            }
            if rules::open_between(b, a, k) && !geom::between(a, k, t) {
                assert forall|s: int| geom::between(a, k, s) implies (#[trigger] b2[s]) is None by {
                    assert(b[s] is None);
                }
            }
            if rules::sole_blocker(b, a, k, f) && !geom::between(a, k, t) {
                assert forall|s: int| geom::between(a, k, s) implies (#[trigger] b2[s]) is None by {
                    if s != f {
                        assert(b[s] is None);
                    }
                }
            }
        } else if rules::hits(b, o, a, k) {
            lemma_leaper_adjacent(b, o, a, k, t);
        }
    }
}

/// One move cannot answer two checks at once.
proof fn lemma_double_check(b: Seq<Cell>, o: Color, k: int, t: int, a: int, d: int)
    requires
        rules::placement(b),
        geom::on_board(k),
        geom::on_board(t),
        rules::hits(b, o, a, k),
        rules::hits(b, o, d, k),
        a != d,
    ensures
        (a != t && !geom::between(a, k, t)) || (d != t && !geom::between(d, k, t)),
{
    if (a == t || geom::between(a, k, t)) && (d == t || geom::between(d, k, t)) {
        if geom::between(a, k, t) {
            if !slides(b[a]->0.kind) {
                lemma_leaper_adjacent(b, o, a, k, t);
            }
            lemma_slider_open(b, o, a, k);
        }
        if geom::between(d, k, t) {
            if !slides(b[d]->0.kind) {
                lemma_leaper_adjacent(b, o, d, k, t);
            }
            lemma_slider_open(b, o, d, k);
        }
        if a == t {
            assert(b[a] is None);
        } else if d == t {
            assert(b[d] is None);
        } else {
            lemma_same_ray(a, d, k, t);
            if geom::between(a, k, d) {
                assert(b[d] is None);
            } else {
                assert(b[a] is None);
            }
        }
    }
}

/// A pinned man that stays on its line with the king keeps between king and pinner or takes
/// the pinner, and one that leaves the line does neither.
proof fn lemma_pin_line(p: Position, mv: Move, a: int)
    requires
        p.wf(),
        legal::pseudo_legal(p, mv),
        !mv.castles(),
        mv.src() != position::king_of(p.board(), p.stm),
        rules::sniper(p.board(), p.stm.other(), a, position::king_of(p.board(), p.stm)),
        rules::sole_blocker(p.board(), a, position::king_of(p.board(), p.stm), mv.src()),
    ensures
        geom::on_line(mv.src(), mv.dst(), position::king_of(p.board(), p.stm)) <==> (mv.dst() == a || geom::between(
            a,
            position::king_of(p.board(), p.stm),
            mv.dst(),
        )),
{
    let b = p.board();
    let k = position::king_of(b, p.stm);
    let f = mv.src();
    let t = mv.dst();
    assert(position::king_at(b, p.stm, k));
    assert(t != k);
    lemma_path_open(p, mv);
    assert(t != f);
    if t == a || geom::between(a, k, t) {
        lemma_on_segment(a, k, f, t);
    } else if geom::on_line(f, t, k) {
        lemma_off_segment(a, k, f, t);
        assert(rules::open_between(b, f, t));
        if geom::between(f, t, k) {
            assert(b[k] is None);
        } else {
            assert(b[a] is None);
        }
    }
}

/// Apart from knights, men move along open lines.
proof fn lemma_path_open(p: Position, mv: Move)
    requires
        p.wf(),
        legal::pseudo_legal(p, mv),
        !mv.castles(),
    ensures
        mv.src() != mv.dst(),
        geom::aligned(mv.src(), mv.dst()) ==> rules::open_between(p.board(), mv.src(), mv.dst()),
{
    let b = p.board();
    let f = mv.src();
    let t = mv.dst();
    if b[f]->0.kind == PieceType::Pawn {
        assert forall|s: int| geom::between(f, t, s) implies (#[trigger] b[s]) is None by {
            if mv.double_push() {
                assert(s == f + 8 * p.stm.up());
            }
        }
    } else if b[f]->0.kind == PieceType::King {
        assert forall|s: int| geom::between(f, t, s) implies (#[trigger] b[s]) is None by {}
    }
}

/// A king that steps away is attacked on its new square by whoever attacks that square with
/// the king off the board.
pub proof fn lemma_king_step(p: Position, mv: Move)
    requires
        p.wf(),
        legal::pseudo_legal(p, mv),
        !mv.castles(),
        mv.src() == position::king_of(p.board(), p.stm),
    ensures
        legal::king_safe_after(p, mv) <==> !rules::attacked(
            p.board().update(mv.src(), None),
            p.stm.other(),
            mv.dst(),
        ),
{
    let b = p.board();
    let o = p.stm.other();
    let f = mv.src();
    let t = mv.dst();
    assert(position::king_at(b, p.stm, f));
    let b1 = b.update(f, None);
    let b2 = rules::after(b, p.stm, mv);
    assert(b2 == b1.update(t, b[f]));
    assert forall|a: int| #[trigger] rules::hits(b1, o, a, t) == rules::hits(b2, o, a, t) by {
        if geom::on_board(a) && a != t {
            assert(rules::open_between(b1, a, t) == rules::open_between(b2, a, t)) by {
                assert forall|s: int| geom::between(a, t, s) implies #[trigger] b1[s] == b2[s] by {}
                if rules::open_between(b2, a, t) {
                    assert forall|s: int| geom::between(a, t, s) implies (#[trigger] b1[s]) is None by {
                        assert(b2[s] is None);
                    }
                }
            }
        }
    }
    if rules::attacked(b1, o, t) {
        let a = choose|a: int| #[trigger] rules::hits(b1, o, a, t);
        assert(rules::hits(b2, o, a, t));
    }
    if rules::attacked(b2, o, t) {
        let a = choose|a: int| #[trigger] rules::hits(b2, o, a, t);
        assert(rules::hits(b1, o, a, t));
    }
}

/// When the mover is neither the king nor an en passant capturer, its king is safe exactly
/// if every check is answered and no pin is broken.
pub proof fn lemma_plain_move(p: Position, mv: Move)
    requires
        p.wf(),
        legal::pseudo_legal(p, mv),
        !mv.castles(),
        !mv.takes_ep(),
        mv.src() != position::king_of(p.board(), p.stm),
    ensures
        ({
            let b = p.board();
            let o = p.stm.other();
            let k = position::king_of(b, p.stm);
            let t = mv.dst();
            legal::king_safe_after(p, mv) <==> {
                &&& forall|a: int| #[trigger] rules::hits(b, o, a, k) ==> t == a || geom::between(a, k, t)
                &&& rules::blocks(b, o, k, mv.src()) ==> geom::on_line(mv.src(), t, k)
            }
        }),
{
    let b = p.board();
    let o = p.stm.other();
    let k = position::king_of(b, p.stm);
    let f = mv.src();
    let t = mv.dst();
    let b2 = rules::after(b, p.stm, mv);
    assert(position::king_at(b, p.stm, k));
    lemma_path_open(p, mv);
    assert forall|a: int| #[trigger] rules::hits(b2, o, a, k) <==> a != t && {
        ||| rules::hits(b, o, a, k) && !geom::between(a, k, t)
        ||| rules::sniper(b, o, a, k) && rules::sole_blocker(b, a, k, f) && !geom::between(a, k, t)
    } by {
        lemma_hits_after(b, b2, o, k, f, t, a);
    }
    assert forall|a: int| #[trigger] rules::sniper(b, o, a, k) && rules::sole_blocker(b, a, k, f) implies (
    geom::on_line(f, t, k) <==> t == a || geom::between(a, k, t)) by {
        lemma_pin_line(p, mv, a);
    }
    if legal::king_safe_after(p, mv) {
        assert forall|a: int| #[trigger] rules::hits(b, o, a, k) implies t == a || geom::between(a, k, t) by {
            assert(!rules::hits(b2, o, a, k));
        }
        if rules::blocks(b, o, k, f) {
            let a = choose|a: int| #[trigger] rules::sniper(b, o, a, k) && rules::sole_blocker(b, a, k, f);
            assert(!rules::hits(b2, o, a, k));
        }
    } else {
        let a = choose|a: int| #[trigger] rules::hits(b2, o, a, k);
        if !rules::hits(b, o, a, k) {
            assert(rules::blocks(b, o, k, f));
        }
    }
}

/// Two checks and no king move: the king stays attacked.
pub proof fn lemma_plain_double_check(p: Position, mv: Move, a: int, d: int)
    requires
        p.wf(),
        legal::pseudo_legal(p, mv),
        !mv.castles(),
        !mv.takes_ep(),
        mv.src() != position::king_of(p.board(), p.stm),
        rules::hits(p.board(), p.stm.other(), a, position::king_of(p.board(), p.stm)),
        rules::hits(p.board(), p.stm.other(), d, position::king_of(p.board(), p.stm)),
        a != d,
    ensures
        !legal::king_safe_after(p, mv),
{
    lemma_plain_move(p, mv);
    let k = position::king_of(p.board(), p.stm);
    assert(position::king_at(p.board(), p.stm, k));
    lemma_double_check(p.board(), p.stm.other(), k, mv.dst(), a, d);
}

/// The squares an en passant capture touches.
proof fn lemma_ep_squares(p: Position, mv: Move)
    requires
        p.wf(),
        legal::pseudo_legal(p, mv),
        mv.takes_ep(),
    ensures
        ({
            let b = p.board();
            let v = rules::ep_victim(p.stm, mv.dst());
            &&& p.en_passant == Some(Square(mv.dst() as u8))
            &&& b[mv.src()] == rules::man(p.stm, PieceType::Pawn)
            &&& b[mv.dst()] is None
            &&& geom::on_board(v)
            &&& b[v] == rules::man(p.stm.other(), PieceType::Pawn)
            &&& geom::rank(v) == geom::rank(mv.src())
            &&& geom::file(v) == geom::file(mv.dst())
            &&& geom::pawn_hit(p.stm, mv.src(), mv.dst())
        }),
{
    assert(p.en_passant matches Some(q) && q.at() == mv.dst());
}

/// What attacks the king after an en passant capture.
pub proof fn lemma_ep_hits(p: Position, mv: Move, a: int)
    requires
        p.wf(),
        legal::pseudo_legal(p, mv),
        mv.takes_ep(),
    ensures
        ({
            let b = p.board();
            let o = p.stm.other();
            let k = position::king_of(b, p.stm);
            let t = mv.dst();
            let v = rules::ep_victim(p.stm, t);
            let b2 = rules::after(b, p.stm, mv);
            rules::hits(b2, o, a, k) <==> a != v && rules::owned(b, a, o) && {
                ||| !slides(b[a]->0.kind) && rules::hits(b, o, a, k)
                ||| rules::sniper(b, o, a, k) && rules::open_between(b2, a, k)
            }
        }),
{
    lemma_ep_squares(p, mv);
    let b = p.board();
    if geom::on_board(a) {
        assert(b[a] is Some ==> b[a]->0.kind != PieceType::Empty);
    }
}

/// A checker that the capture neither takes nor shuts off still gives check.
pub proof fn lemma_ep_checker(p: Position, mv: Move, a: int)
    requires
        p.wf(),
        legal::pseudo_legal(p, mv),
        mv.takes_ep(),
        rules::hits(p.board(), p.stm.other(), a, position::king_of(p.board(), p.stm)),
        a != rules::ep_victim(p.stm, mv.dst()),
        !geom::between(a, position::king_of(p.board(), p.stm), mv.dst()),
    ensures
        rules::hits(
            rules::after(p.board(), p.stm, mv),
            p.stm.other(),
            a,
            position::king_of(p.board(), p.stm),
        ),
{
    lemma_ep_squares(p, mv);
    lemma_ep_hits(p, mv, a);
    let b = p.board();
    let k = position::king_of(b, p.stm);
    let b2 = rules::after(b, p.stm, mv);
    if slides(b[a]->0.kind) {
        lemma_slider_open(b, p.stm.other(), a, k);
        assert forall|s: int| geom::between(a, k, s) implies (#[trigger] b2[s]) is None by {
            assert(b[s] is None);
        }
    }
}

/// Two checks: not even an en passant capture answers both.
pub proof fn lemma_ep_double_check(p: Position, mv: Move, a: int, d: int)
    requires
        p.wf(),
        legal::pseudo_legal(p, mv),
        mv.takes_ep(),
        rules::hits(p.board(), p.stm.other(), a, position::king_of(p.board(), p.stm)),
        rules::hits(p.board(), p.stm.other(), d, position::king_of(p.board(), p.stm)),
        a != d,
    ensures
        !legal::king_safe_after(p, mv),
{
    let b = p.board();
    let o = p.stm.other();
    let k = position::king_of(b, p.stm);
    let t = mv.dst();
    let v = rules::ep_victim(p.stm, t);
    lemma_ep_squares(p, mv);
    assert(position::king_at(b, p.stm, k));
    let b2 = rules::after(b, p.stm, mv);
    if a == v {
        lemma_ep_pawn_check(p, mv, d);
        assert(rules::hits(b2, o, d, k));
    } else if d == v {
        lemma_ep_pawn_check(p, mv, a);
        assert(rules::hits(b2, o, a, k));
    } else {
        lemma_double_check(b, o, k, t, a, d);
        if a != t && !geom::between(a, k, t) {
            lemma_ep_checker(p, mv, a);
            assert(rules::hits(b2, o, a, k));
        } else {
            lemma_ep_checker(p, mv, d);
            assert(rules::hits(b2, o, d, k));
        }
    }
}

/// When the pawn that has just moved two steps gives check, a second checker cannot be
/// shut off by capturing it.
proof fn lemma_ep_pawn_check(p: Position, mv: Move, d: int)
    requires
        p.wf(),
        legal::pseudo_legal(p, mv),
        mv.takes_ep(),
        rules::hits(
            p.board(),
            p.stm.other(),
            rules::ep_victim(p.stm, mv.dst()),
            position::king_of(p.board(), p.stm),
        ),
        rules::hits(p.board(), p.stm.other(), d, position::king_of(p.board(), p.stm)),
        d != rules::ep_victim(p.stm, mv.dst()),
    ensures
        rules::hits(
            rules::after(p.board(), p.stm, mv),
            p.stm.other(),
            d,
            position::king_of(p.board(), p.stm),
        ),
{
    let b = p.board();
    let o = p.stm.other();
    let k = position::king_of(b, p.stm);
    let t = mv.dst();
    let v = rules::ep_victim(p.stm, t);
    lemma_ep_squares(p, mv);
    assert(position::king_at(b, p.stm, k));
    if geom::between(d, k, t) {
        if !slides(b[d]->0.kind) {
            lemma_leaper_adjacent(b, o, d, k, t);
        }
        lemma_slider_open(b, o, d, k);
        let b0 = p.before_push(t);
        let w = t + 8 * p.stm.up();
        assert(!rules::hits(b0, o, d, k));
        assert(d != w);
        assert(b0[d] == b[d]);
        assert(!rules::open_between(b0, d, k));
        let s = choose|s: int| geom::between(d, k, s) && !((#[trigger] b0[s]) is None);
        assert(b[s] is None);
        assert(s == w);
        assert(geom::file(k) == geom::file(t));
        assert(geom::pawn_hit(o, v, k));
    } else {
        lemma_ep_checker(p, mv, d);
    }
}

/// A pawn pinned to its king that captures en passant off the pin line uncovers the king.
pub proof fn lemma_ep_pin(p: Position, mv: Move)
    requires
        p.wf(),
        legal::pseudo_legal(p, mv),
        mv.takes_ep(),
        rules::blocks(p.board(), p.stm.other(), position::king_of(p.board(), p.stm), mv.src()),
        !geom::on_line(mv.src(), mv.dst(), position::king_of(p.board(), p.stm)),
    ensures
        !legal::king_safe_after(p, mv),
{
    let b = p.board();
    let o = p.stm.other();
    let k = position::king_of(b, p.stm);
    let f = mv.src();
    let t = mv.dst();
    lemma_ep_squares(p, mv);
    assert(position::king_at(b, p.stm, k));
    let b2 = rules::after(b, p.stm, mv);
    let a = choose|a: int| #[trigger] rules::sniper(b, o, a, k) && rules::sole_blocker(b, a, k, f);
    if geom::between(a, k, t) {
        lemma_on_segment(a, k, f, t);
    }
    assert forall|s: int| geom::between(a, k, s) implies (#[trigger] b2[s]) is None by {
        if s != f {
            assert(b[s] is None);
        }
    }
    lemma_ep_hits(p, mv, a);
    assert(rules::hits(b2, o, a, k));
}

/// Once checks are answered and the pin line is kept, only a rook or queen along the king's
/// own rank, seen past both pawns, or a bishop or queen on a diagonal can attack the king
/// after an en passant capture.
pub proof fn lemma_ep_rest(p: Position, mv: Move, a: int)
    requires
        p.wf(),
        legal::pseudo_legal(p, mv),
        mv.takes_ep(),
        rules::hits(
            rules::after(p.board(), p.stm, mv),
            p.stm.other(),
            a,
            position::king_of(p.board(), p.stm),
        ),
        forall|d: int| #[trigger]
            rules::hits(p.board(), p.stm.other(), d, position::king_of(p.board(), p.stm)) ==> d == rules::ep_victim(
                p.stm,
                mv.dst(),
            ) || geom::between(d, position::king_of(p.board(), p.stm), mv.dst()),
        rules::blocks(p.board(), p.stm.other(), position::king_of(p.board(), p.stm), mv.src()) ==> geom::on_line(
            mv.src(),
            mv.dst(),
            position::king_of(p.board(), p.stm),
        ),
        !geom::diagonal(a, position::king_of(p.board(), p.stm)),
    ensures
        geom::rank(position::king_of(p.board(), p.stm)) == geom::rank(mv.src()),
        geom::rank(a) == geom::rank(position::king_of(p.board(), p.stm)),
        p.board()[a]->0.kind.is_ortho(),
{
    let b = p.board();
    let o = p.stm.other();
    let k = position::king_of(b, p.stm);
    let f = mv.src();
    let t = mv.dst();
    let v = rules::ep_victim(p.stm, t);
    lemma_ep_squares(p, mv);
    assert(position::king_at(b, p.stm, k));
    let b2 = rules::after(b, p.stm, mv);
    lemma_ep_hits(p, mv, a);
    if !slides(b[a]->0.kind) {
        lemma_leaper_adjacent(b, o, a, k, t);
        assert(false);
    }
    assert(rules::sniper(b, o, a, k));
    assert(!geom::between(a, k, t)) by {
        if geom::between(a, k, t) {
            assert(b2[t] is None);
        }
    }
    assert(!rules::hits(b, o, a, k));
    assert(!rules::open_between(b, a, k));
    let s = choose|s: int| geom::between(a, k, s) && !((#[trigger] b[s]) is None);
    assert(b2[s] is None);
    assert(s == f || s == v);
    if geom::rank(a) != geom::rank(k) {
        assert(geom::file(a) == geom::file(k));
        if s == v {
            assert(t != a);
            assert(geom::between(a, k, t));
        } else {
            assert forall|x: int| geom::between(a, k, x) && x != f implies (#[trigger] b[x]) is None by {
                assert(b2[x] is None);
                if x == v {
                    assert(geom::file(v) == geom::file(f));
                }
            }
            assert(rules::sole_blocker(b, a, k, f));
            assert(rules::blocks(b, o, k, f));
            assert(geom::on_line(f, t, k));
            assert(false);
        }
    }
}

} // verus!
