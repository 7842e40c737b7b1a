//! Attack sets, lines and segments.

use vstd::prelude::*;

use crate::chess::bitboard::Bitboard;
use crate::chess::geom;
use crate::chess::types::{Color, Square};

verus! {

/// Everything but the a-file.
pub const NOT_FILE_A: u64 = 0xfefe_fefe_fefe_fefe;

/// Everything but the h-file.
pub const NOT_FILE_H: u64 = 0x7f7f_7f7f_7f7f_7f7f;

/// Everything but the a- and b-files.
pub const NOT_FILE_AB: u64 = 0xfcfc_fcfc_fcfc_fcfc;

/// Everything but the g- and h-files.
pub const NOT_FILE_GH: u64 = 0x3f3f_3f3f_3f3f_3f3f;

proof fn lemma_knight_word(a: u64, t: u64)
    by (bit_vector)
    requires
        a < 64,
        t < 64,
    ensures
        ({
            let x = 1u64 << a;
            let e1 = (x << 1) & 0xfefe_fefe_fefe_fefe;
            let w1 = (x >> 1) & 0x7f7f_7f7f_7f7f_7f7f;
            let e2 = (x << 2) & 0xfcfc_fcfc_fcfc_fcfc;
            let w2 = (x >> 2) & 0x3f3f_3f3f_3f3f_3f3f;
            let h1 = e1 | w1;
            let h2 = e2 | w2;
            let k = (h1 << 16) | (h1 >> 16) | (h2 << 8) | (h2 >> 8);
            let f1 = a % 8 + 1 == t % 8 || t % 8 + 1 == a % 8;
            let f2 = a % 8 + 2 == t % 8 || t % 8 + 2 == a % 8;
            let r1 = a / 8 + 1 == t / 8 || t / 8 + 1 == a / 8;
            let r2 = a / 8 + 2 == t / 8 || t / 8 + 2 == a / 8;
            ((k >> t) & 1 == 1) <==> ((f1 && r2) || (f2 && r1))
        }),
{
}

proof fn lemma_king_word(a: u64, t: u64)
    by (bit_vector)
    requires
        a < 64,
        t < 64,
    ensures
        ({
            let x = 1u64 << a;
            let row = x | ((x << 1) & 0xfefe_fefe_fefe_fefe) | ((x >> 1) & 0x7f7f_7f7f_7f7f_7f7f);
            let k = (row | (row << 8) | (row >> 8)) & !x;
            let f = a % 8 <= t % 8 + 1 && t % 8 <= a % 8 + 1;
            let r = a / 8 <= t / 8 + 1 && t / 8 <= a / 8 + 1;
            ((k >> t) & 1 == 1) <==> (f && r && a != t)
        }),
{
}

proof fn lemma_pawn_word(a: u64, t: u64)
    by (bit_vector)
    requires
        a < 64,
        t < 64,
    ensures
        ({
            let x = 1u64 << a;
            let row = ((x << 1) & 0xfefe_fefe_fefe_fefe) | ((x >> 1) & 0x7f7f_7f7f_7f7f_7f7f);
            let f1 = a % 8 + 1 == t % 8 || t % 8 + 1 == a % 8;
            &&& (((row << 8) >> t) & 1 == 1) <==> (f1 && t / 8 == a / 8 + 1)
            &&& (((row >> 8) >> t) & 1 == 1) <==> (f1 && a / 8 == t / 8 + 1)
        }),
{
}

/// The squares a knight on `sq` attacks.
pub fn atk_knight(sq: Square) -> (b: Bitboard)
    requires
        sq.ok(),
    ensures
        forall|t: int| #[trigger] b.has(t) <==> geom::on_board(t) && geom::knight_hop(sq.at(), t),
{
    let x: u64 = 1u64 << sq.0;
    let e1: u64 = (x << 1) & NOT_FILE_A;
    let w1: u64 = (x >> 1) & NOT_FILE_H;
    let e2: u64 = (x << 2) & NOT_FILE_AB;
    let w2: u64 = (x >> 2) & NOT_FILE_GH;
    let h1: u64 = e1 | w1;
    let h2: u64 = e2 | w2;
    let k: u64 = (h1 << 16) | (h1 >> 16) | (h2 << 8) | (h2 >> 8);
    proof {
        assert forall|t: int| #[trigger] Bitboard(k).has(t) <==> geom::on_board(t) && geom::knight_hop(sq.at(), t) by {
            reveal(Bitboard::has);
            if 0 <= t < 64 {
                let a = sq.0 as u64;
                assert(1u64 << a == x);
                lemma_knight_word(a, t as u64);
            }
        }
    }
    Bitboard(k)
}

/// The squares a king on `sq` attacks.
pub fn atk_king(sq: Square) -> (b: Bitboard)
    requires
        sq.ok(),
    ensures
        forall|t: int| #[trigger] b.has(t) <==> geom::on_board(t) && geom::king_step(sq.at(), t),
{
    let x: u64 = 1u64 << sq.0;
    let row: u64 = x | ((x << 1) & NOT_FILE_A) | ((x >> 1) & NOT_FILE_H);
    let k: u64 = (row | (row << 8) | (row >> 8)) & !x;
    proof {
        assert forall|t: int| #[trigger] Bitboard(k).has(t) <==> geom::on_board(t) && geom::king_step(sq.at(), t) by {
            reveal(Bitboard::has);
            if 0 <= t < 64 {
                let a = sq.0 as u64;
                assert(1u64 << a == x);
                lemma_king_word(a, t as u64);
            }
        }
    }
    Bitboard(k)
}

/// The squares a pawn of side `color` on `sq` attacks.
pub fn atk_pawn(sq: Square, color: Color) -> (b: Bitboard)
    requires
        sq.ok(),
    ensures
        forall|t: int| #[trigger] b.has(t) <==> geom::on_board(t) && geom::pawn_hit(color, sq.at(), t),
{
    let x: u64 = 1u64 << sq.0;
    let row: u64 = ((x << 1) & NOT_FILE_A) | ((x >> 1) & NOT_FILE_H);
    let k: u64 = match color {
        Color::White => row << 8,
        Color::Black => row >> 8,
    };
    proof {
        assert forall|t: int| #[trigger] Bitboard(k).has(t) <==> geom::on_board(t) && geom::pawn_hit(color, sq.at(), t) by {
            reveal(Bitboard::has);
            if 0 <= t < 64 {
                let a = sq.0 as u64;
                assert(1u64 << a == x);
                lemma_pawn_word(a, t as u64);
            }
        }
    }
    Bitboard(k)
}

/// The squares seen from `sq` in direction `(df, dr)`, up to and with the first
/// man of `occ`.
fn walk(sq: Square, occ: Bitboard, df: i8, dr: i8) -> (b: Bitboard)
    requires
        sq.ok(),
        -1 <= df <= 1,
        -1 <= dr <= 1,
        df != 0 || dr != 0,
    ensures
        forall|t: int| #[trigger]
            b.has(t) <==> (exists|m: int|
                m >= 1 && #[trigger] geom::stepped(sq.at(), df as int, dr as int, m, t)) && geom::clear(occ, sq.at(), t),
{
    let mut f: i8 = sq.file() as i8 + df;
    let mut r: i8 = sq.rank() as i8 + dr;
    let mut acc: Bitboard = Bitboard::empty();
    let ghost mut m: int = 1;
    let ghost a = sq.at();
    let mut open: bool = true;
    while open && 0 <= f && f < 8 && 0 <= r && r < 8
        invariant
            a == sq.at(),
            sq.ok(),
            -1 <= df <= 1,
            -1 <= dr <= 1,
            df != 0 || dr != 0,
            m >= 1,
            f == geom::file(a) + geom::steps(df as int, m),
            r == geom::rank(a) + geom::steps(dr as int, m),
            -1 <= f <= 8,
            -1 <= r <= 8,
            forall|t: int| #[trigger]
                acc.has(t) <==> (exists|j: int| 1 <= j < m && #[trigger] geom::stepped(a, df as int, dr as int, j, t)),
            forall|t: int, j: int|
                1 <= j < m - 1 && #[trigger] geom::stepped(a, df as int, dr as int, j, t) ==> !occ.has(t),
            open ==> forall|t: int| #[trigger] geom::stepped(a, df as int, dr as int, m - 1, t) && m > 1 ==> !occ.has(t),
            !open ==> m > 1 && exists|t: int| #[trigger] geom::stepped(a, df as int, dr as int, m - 1, t) && occ.has(t),
        decreases 9 - m,
    {
        let s = Square::from_coords(f as u8, r as u8);
        assert(geom::stepped(a, df as int, dr as int, m, s.at()));
        let old_acc = acc;
        acc = acc.or(s.bitboard());
        assert forall|t: int| #[trigger]
            acc.has(t) <==> (exists|j: int| 1 <= j < m + 1 && #[trigger] geom::stepped(a, df as int, dr as int, j, t)) by {
            if old_acc.has(t) {
                let j = choose|j: int| 1 <= j < m && #[trigger] geom::stepped(a, df as int, dr as int, j, t);
                assert(geom::stepped(a, df as int, dr as int, j, t));
            }
        }
        if occ.check_bit(s) {
            open = false;
        }
        f = f + df;
        r = r + dr;
        proof {
            m = m + 1;
            assert(geom::stepped(a, df as int, dr as int, m - 1, s.at()));
        }
    }
    proof {
        assert forall|t: int| #[trigger]
            acc.has(t) <==> (exists|j: int| j >= 1 && #[trigger] geom::stepped(a, df as int, dr as int, j, t)) && geom::clear(
                occ,
                a,
                t,
            ) by {
            if acc.has(t) {
                let j = choose|j: int| 1 <= j < m && #[trigger] geom::stepped(a, df as int, dr as int, j, t);
                assert forall|s: int| #[trigger] occ.has(s) implies !geom::between(a, t, s) by {
                    if geom::between(a, t, s) {
                        let i = if geom::file_gap(a, s) > geom::rank_gap(a, s) {
                            geom::file_gap(a, s)
                        } else {
                            geom::rank_gap(a, s)
                        };
                        assert(geom::stepped(a, df as int, dr as int, i, s));
                        assert(i < j);
                    }
                }
            } else if exists|j: int| j >= 1 && #[trigger] geom::stepped(a, df as int, dr as int, j, t) {
                let j = choose|j: int| j >= 1 && #[trigger] geom::stepped(a, df as int, dr as int, j, t);
                assert(j >= m);
                assert(!open) by {
                    if open {
                        assert(0 <= f < 8 && 0 <= r < 8);
                    }
                }
                let s = choose|s: int| #[trigger] geom::stepped(a, df as int, dr as int, m - 1, s) && occ.has(s);
                assert(geom::between(a, t, s));
            }
        }
    }
    acc
}

/// The squares a bishop on `sq` sees past the men of `occ`.
pub fn atk_bishop(sq: Square, occ: Bitboard) -> (b: Bitboard)
    requires
        sq.ok(),
    ensures
        forall|t: int| #[trigger] b.has(t) <==> geom::bishop_sees(occ, sq.at(), t),
{
    let ne = walk(sq, occ, 1, 1);
    let nw = walk(sq, occ, -1, 1);
    let se = walk(sq, occ, 1, -1);
    let sw = walk(sq, occ, -1, -1);
    let b = ne.or(nw).or(se.or(sw));
    proof {
        let a = sq.at();
        assert forall|t: int| #[trigger] b.has(t) <==> geom::bishop_sees(occ, a, t) by {
            let m = geom::file_gap(a, t);
            if geom::bishop_sees(occ, a, t) {
                assert(geom::stepped(a, 1, 1, m, t) || geom::stepped(a, -1, 1, m, t) || geom::stepped(a, 1, -1, m, t)
                    || geom::stepped(a, -1, -1, m, t));
                assert(ne.has(t) || nw.has(t) || se.has(t) || sw.has(t));
            }
        }
    }
    b
}

/// The squares a rook on `sq` sees past the men of `occ`.
pub fn atk_rook(sq: Square, occ: Bitboard) -> (b: Bitboard)
    requires
        sq.ok(),
    ensures
        forall|t: int| #[trigger] b.has(t) <==> geom::rook_sees(occ, sq.at(), t),
{
    let n = walk(sq, occ, 0, 1);
    let s = walk(sq, occ, 0, -1);
    let e = walk(sq, occ, 1, 0);
    let w = walk(sq, occ, -1, 0);
    let b = n.or(s).or(e.or(w));
    proof {
        let a = sq.at();
        assert forall|t: int| #[trigger] b.has(t) <==> geom::rook_sees(occ, a, t) by {
            let m = geom::file_gap(a, t) + geom::rank_gap(a, t);
            if geom::rook_sees(occ, a, t) {
                assert(geom::stepped(a, 0, 1, m, t) || geom::stepped(a, 0, -1, m, t) || geom::stepped(a, 1, 0, m, t)
                    || geom::stepped(a, -1, 0, m, t));
                assert(n.has(t) || s.has(t) || e.has(t) || w.has(t));
            }
        }
    }
    b
}

/// One unit of the sign of `x`.
fn sign(x: i8) -> (s: i8)
    ensures
        s == (if x > 0 {
            1int
        } else if x < 0 {
            -1
        } else {
            0
        }),
{
    if x > 0 {
        1
    } else if x < 0 {
        -1
    } else {
        0
    }
}

/// The squares strictly between `a` and `b`, none where they share no line.
pub fn between_bb(a: Square, b: Square) -> (r: Bitboard)
    requires
        a.ok(),
        b.ok(),
    ensures
        forall|s: int| #[trigger] r.has(s) <==> geom::between(a.at(), b.at(), s),
{
    let df: i8 = b.file() as i8 - a.file() as i8;
    let dr: i8 = b.rank() as i8 - a.rank() as i8;
    if df != 0 && dr != 0 && df != dr && df != -dr {
        return Bitboard::empty();
    }
    if df == 0 && dr == 0 {
        return Bitboard::empty();
    }
    let sf: i8 = sign(df);
    let sr: i8 = sign(dr);
    let fwd = walk(a, b.bitboard(), sf, sr);
    let ray = walk(b, a.bitboard(), -sf, -sr);
    let r = fwd.and(ray);
    proof {
        let x = a.at();
        let y = b.at();
        let n = if geom::file_gap(x, y) > geom::rank_gap(x, y) {
            geom::file_gap(x, y)
        } else {
            geom::rank_gap(x, y)
        };
        assert forall|s: int| #[trigger] r.has(s) <==> geom::between(x, y, s) by {
            let m = if geom::file_gap(x, s) > geom::rank_gap(x, s) {
                geom::file_gap(x, s)
            } else {
                geom::rank_gap(x, s)
            };
            if r.has(s) {
                let i = choose|i: int| i >= 1 && #[trigger] geom::stepped(x, sf as int, sr as int, i, s);
                let j = choose|j: int| j >= 1 && #[trigger] geom::stepped(y, -sf as int, -sr as int, j, s);
            }
            if geom::between(x, y, s) {
                assert(geom::stepped(x, sf as int, sr as int, m, s));
                assert(geom::stepped(y, -sf as int, -sr as int, n - m, s));
                assert forall|q: int| q == y implies !geom::between(x, s, q) by {}
                assert forall|q: int| q == x implies !geom::between(y, s, q) by {}
            }
        }
    }
    r
}

/// The whole line through `a` and `b`, ends of the board and both squares with it; none
/// where they share no line.
pub fn line_bb(a: Square, b: Square) -> (r: Bitboard)
    requires
        a.ok(),
        b.ok(),
    ensures
        forall|s: int| #[trigger] r.has(s) <==> geom::on_line(a.at(), b.at(), s),
{
    let df: i8 = b.file() as i8 - a.file() as i8;
    let dr: i8 = b.rank() as i8 - a.rank() as i8;
    if df != 0 && dr != 0 && df != dr && df != -dr {
        return Bitboard::empty();
    }
    if df == 0 && dr == 0 {
        return Bitboard::empty();
    }
    let sf: i8 = sign(df);
    let sr: i8 = sign(dr);
    let none = Bitboard::empty();
    let fwd = walk(a, none, sf, sr);
    let back = walk(a, none, -sf, -sr);
    let r = fwd.or(back).or(a.bitboard());
    proof {
        let x = a.at();
        let y = b.at();
        assert forall|s: int| geom::clear(none, x, s) by {}
        assert forall|s: int| #[trigger] r.has(s) <==> geom::on_line(x, y, s) by {
            let m = if geom::file_gap(x, s) > geom::rank_gap(x, s) {
                geom::file_gap(x, s)
            } else {
                geom::rank_gap(x, s)
            };
            assert(geom::clear(none, x, s));
            if geom::on_line(x, y, s) && s != x {
                assert(geom::stepped(x, sf as int, sr as int, m, s) || geom::stepped(x, -sf as int, -sr as int, m, s));
                assert(fwd.has(s) || back.has(s));
            }
        }
    }
    r
}

} // verus!
