//! When the side to move may castle.

use vstd::prelude::*;

use crate::chess::legal;
use crate::chess::position::{self, Position};
use crate::chess::rules;
use crate::chess::types::{Color, PieceType, Square};

verus! {

impl Position {
    /// Whether side `c` still holds the right to castle with the rook on `rook`.
    fn holds_right(&self, c: Color, rook: Square) -> (r: bool)
        ensures
            r == legal::right_held(*self, c, rook.at()),
    {
        let mut i: usize = 0;
        while i < 4
            invariant
                i <= 4,
                forall|j: int|
                    0 <= j < i ==> !(position::castling_side(j) == c && #[trigger] self.castling_rights[j]
                        && self.castling_rooks[j].at() == rook.at()),
            decreases 4 - i,
        {
            let side = if i < 2 {
                Color::White
            } else {
                Color::Black
            };
            if side == c && self.castling_rights[i] && self.castling_rooks[i] == rook {
                assert(self.castling_rights[i as int]);
                return true;
            }
            i = i + 1;
        }
        false
    }

    /// Whether all squares from `lo` to `hi` but `k` and `r` are empty.
    fn corridor_empty(&self, lo: u8, hi: u8, k: Square, r: Square) -> (e: bool)
        requires
            hi < 64,
        ensures
            e <==> forall|s: int| lo <= s <= hi && s != k.at() && s != r.at() ==> (#[trigger] self.board()[s]) is None,
    {
        let mut i: u8 = lo;
        while i <= hi
            invariant
                lo <= i <= hi + 1 || lo > hi,
                hi < 64,
                i >= lo,
                forall|s: int| lo <= s < i && s != k.at() && s != r.at() ==> (#[trigger] self.board()[s]) is None,
            decreases 64 - i,
        {
            if i != k.0 && i != r.0 && self.cells[i as usize].is_some() {
                assert(!(self.board()[i as int] is None));
                return false;
            }
            i = i + 1;
        }
        true
    }

    /// Whether side `by` attacks none of the squares from `lo` to `hi`.
    fn walk_safe(&self, lo: u8, hi: u8, by: Color) -> (e: bool)
        requires
            hi < 64,
            self.mirrored(),
        ensures
            e <==> forall|s: int| lo <= s <= hi ==> !#[trigger] rules::attacked(self.board(), by, s),
    {
        let mut i: u8 = lo;
        while i <= hi
            invariant
                hi < 64,
                i >= lo,
                self.mirrored(),
                forall|s: int| lo <= s < i ==> !#[trigger] rules::attacked(self.board(), by, s),
            decreases 64 - i,
        {
            let found = self.get_attackers_on(Square(i), by);
            if found.is_not_empty() {
                proof {
                    let a = choose|a: int| #[trigger] found.has(a);
                    assert(rules::hits(self.board(), by, a, i as int));
                    assert(rules::attacked(self.board(), by, i as int));
                }
                return false;
            }
            proof {
                if rules::attacked(self.board(), by, i as int) {
                    let a = choose|a: int| #[trigger] rules::hits(self.board(), by, a, i as int);
                    assert(found.has(a));
                }
            }
            i = i + 1;
        }
        true
    }

    /// Whether the side to move may castle with the king on `k` and the rook on `r`: the
    /// right is still held, the corridor is free, and the king neither stands in, crosses
    /// nor enters check.
    pub fn is_castle_move_legal(&self, k: Square, r: Square) -> (ok: bool)
        requires
            self.wf(),
            k.ok(),
            r.ok(),
        ensures
            ok == legal::castle_allowed(*self, k.at(), r.at()),
    {
        let c = self.stm;
        let opp = c.opposite();
        let king = self.pieces(PieceType::King, c);
        let rooks = self.pieces(PieceType::Rook, c);
        if !king.check_bit(k) || !rooks.check_bit(r) || !self.holds_right(c, r) {
            return false;
        }
        let ghost b = self.board();
        let rank: u8 = k.rank();
        let kingside = r.0 > k.0;
        let (kf, rf): (u8, u8) = if kingside {
            (6, 5)
        } else {
            (2, 3)
        };
        let kd = Square::from_coords(kf, rank);
        let rd = Square::from_coords(rf, rank);
        let w_lo: u8 = if k.0 < kd.0 {
            k.0
        } else {
            kd.0
        };
        let w_hi: u8 = if k.0 < kd.0 {
            kd.0
        } else {
            k.0
        };
        let r_lo: u8 = if r.0 < rd.0 {
            r.0
        } else {
            rd.0
        };
        let r_hi: u8 = if r.0 < rd.0 {
            rd.0
        } else {
            r.0
        };
        let lo: u8 = if w_lo < r_lo {
            w_lo
        } else {
            r_lo
        };
        let hi: u8 = if w_hi < r_hi {
            r_hi
        } else {
            w_hi
        };
        assert(forall|s: int| legal::corridor(k.at(), r.at(), s) <==> lo <= s <= hi);
        assert(forall|s: int| #[trigger] legal::king_walk(k.at(), r.at(), s) <==> w_lo <= s <= w_hi);
        if !self.corridor_empty(lo, hi, k, r) {
            return false;
        }
        if !self.walk_safe(w_lo, w_hi, opp) {
            proof {
                let s = choose|s: int| w_lo <= s <= w_hi && #[trigger] rules::attacked(b, opp, s);
                assert(legal::king_walk(k.at(), r.at(), s));
            }
            return false;
        }
        let occ = self.occ.and(k.bitboard().or(r.bitboard()).not()).or(kd.bitboard()).or(rd.bitboard());
        let found = self.attackers(kd, opp, occ);
        proof {
            let b2 = rules::after_castle(b, c, k.at(), r.at());
            assert(legal::corridor(k.at(), r.at(), kd.at()) && legal::corridor(k.at(), r.at(), rd.at()));
            assert(kd != k && kd != r ==> b[kd.at()] is None);
            assert(rd != k && rd != r ==> b[rd.at()] is None);
            assert forall|s: int| #[trigger] occ.has(s) <==> rules::occupied(b2, s) by {}
            rules::lemma_reaches(b2, occ);
            assert forall|a: int| #[trigger] found.has(a) <==> rules::hits(b2, opp, a, kd.at()) by {}
            if rules::attacked(b2, opp, kd.at()) {
                let a = choose|a: int| #[trigger] rules::hits(b2, opp, a, kd.at());
                assert(found.has(a));
            }
        }
        found.is_empty()
    }
}

} // verus!
