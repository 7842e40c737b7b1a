//! Playing moves: every redundant part of a position is carried along.

use vstd::prelude::*;

use crate::chess::geom;
use crate::chess::legal;
use crate::chess::moves::Move;
use crate::chess::position::{self, Position};
use crate::chess::psq::{self, Accumulator, Lane};
use crate::chess::rules::{self, Cell, Man};
use crate::chess::types::{Color, PieceType, Square};
use crate::chess::zobrist::{self, KeyKind};

verus! {

impl Position {
    /// The parts of a position that moving men about leaves alone.
    pub open spec fn same_state(self, o: Position) -> bool {
        &&& self.castling_rights == o.castling_rights
        &&& self.castling_rooks == o.castling_rooks
        &&& self.stm == o.stm
        &&& self.en_passant == o.en_passant
        &&& self.halfmove_clock == o.halfmove_clock
        &&& self.fullmove_number == o.fullmove_number
        &&& self.is_frc == o.is_frc
    }

    /// Folds the word of a man on `sq` into the keys.
    fn toggle_keys(&mut self, m: Man, sq: Square)
        requires
            sq.ok(),
        ensures
            final(self).cells == old(self).cells,
            final(self).side_bb == old(self).side_bb,
            final(self).role_bb == old(self).role_bb,
            final(self).occ == old(self).occ,
            final(self).same_state(*old(self)),
            final(self).hash == old(self).hash ^ zobrist::cell_word(KeyKind::All, Some(m), sq.at()),
            final(self).pawn_key == old(self).pawn_key ^ zobrist::cell_word(KeyKind::Pawn, Some(m), sq.at()),
            final(self).minor_key == old(self).minor_key ^ zobrist::cell_word(KeyKind::Minor, Some(m), sq.at()),
            final(self).major_key == old(self).major_key ^ zobrist::cell_word(KeyKind::Major, Some(m), sq.at()),
    {
        let w: u64 = zobrist::man_word_of(m.color, m.kind, sq);
        proof {
            zobrist::lemma_swap(self.pawn_key, 0, 0);
            zobrist::lemma_swap(self.minor_key, 0, 0);
            zobrist::lemma_swap(self.major_key, 0, 0);
        }
        self.hash = self.hash ^ w;
        match m.kind {
            PieceType::Pawn => {
                self.pawn_key = self.pawn_key ^ w;
            },
            PieceType::Knight | PieceType::Bishop => {
                self.minor_key = self.minor_key ^ w;
            },
            PieceType::Rook | PieceType::Queen => {
                self.major_key = self.major_key ^ w;
            },
            _ => {},
        }
    }

    /// Puts a man on an empty square.
    pub fn put(&mut self, m: Man, sq: Square, acc: &mut Accumulator)
        requires
            old(self).coherent(),
            sq.ok(),
            m.kind != PieceType::Empty,
            old(self).board()[sq.at()] is None,
            old(acc).of(old(self).board()),
        ensures
            final(self).coherent(),
            final(self).board() == old(self).board().update(sq.at(), Some(m)),
            final(self).same_state(*old(self)),
            final(acc).of(final(self).board()),
    {
        let ghost b = self.board();
        let ghost s = sq.at();
        let ghost p0 = *self;
        let bit = sq.bitboard();
        let ci: usize = m.color.idx();
        let ki: usize = m.kind.idx();
        self.cells[sq.0 as usize] = Some(m);
        let side = self.side_bb[ci].or(bit);
        self.side_bb[ci] = side;
        let role = self.role_bb[ki].or(bit);
        self.role_bb[ki] = role;
        self.occ = self.occ.or(bit);
        self.toggle_keys(m, sq);
        let w = psq::worth_of(m, sq);
        proof {
            let b2 = b.update(s, Some(m));
            assert(self.board() == b2);
            assert forall|i: int, x: int|
                0 <= i < 6 implies (#[trigger] self.role_bb[i].has(x) <==> rules::occupied(b2, x) && b2[x]->0.kind.index()
                == i) by {
                assert(p0.role_bb[i].has(x) <==> rules::occupied(b, x) && b[x]->0.kind.index() == i);
            }
            assert forall|x: int| #[trigger] self.side_bb[0].has(x) <==> rules::owned(b2, x, Color::White) by {
                assert(p0.side_bb[0].has(x) <==> rules::owned(b, x, Color::White));
            }
            assert forall|x: int| #[trigger] self.side_bb[1].has(x) <==> rules::owned(b2, x, Color::Black) by {
                assert(p0.side_bb[1].has(x) <==> rules::owned(b, x, Color::Black));
            }
            assert(self.mirrored());
            lemma_keys_update(b, s, Some(m));
            let st = zobrist::state_word(self.castling_rights@, self.en_passant, self.stm);
            zobrist::lemma_swap(zobrist::key(KeyKind::All, b), st, zobrist::cell_word(KeyKind::All, Some(m), s));
            lemma_sums_update(b, s, Some(m));
        }
        acc.mg = acc.mg + w.mg;
        acc.eg = acc.eg + w.eg;
        acc.phase = acc.phase + w.phase;
    }

    /// Takes the man off an occupied square.
    pub fn lift(&mut self, sq: Square, acc: &mut Accumulator) -> (m: Man)
        requires
            old(self).coherent(),
            sq.ok(),
            old(self).board()[sq.at()] is Some,
            old(acc).of(old(self).board()),
        ensures
            old(self).board()[sq.at()] == Some(m),
            final(self).coherent(),
            final(self).board() == old(self).board().update(sq.at(), None),
            final(self).same_state(*old(self)),
            final(acc).of(final(self).board()),
    {
        let ghost b = self.board();
        let ghost s = sq.at();
        let ghost p0 = *self;
        let m: Man = match self.cells[sq.0 as usize] {
            Some(m) => m,
            None => Man { color: Color::White, kind: PieceType::Pawn },
        };
        let bit = sq.bitboard().not();
        let ci: usize = m.color.idx();
        proof {
            assert(b[s]->0.kind != PieceType::Empty);
        }
        let ki: usize = m.kind.idx();
        self.cells[sq.0 as usize] = None;
        let side = self.side_bb[ci].and(bit);
        self.side_bb[ci] = side;
        let role = self.role_bb[ki].and(bit);
        self.role_bb[ki] = role;
        self.occ = self.occ.and(bit);
        self.toggle_keys(m, sq);
        let w = psq::worth_of(m, sq);
        proof {
            let b2 = b.update(s, None);
            assert(self.board() == b2);
            assert forall|i: int, x: int|
                0 <= i < 6 implies (#[trigger] self.role_bb[i].has(x) <==> rules::occupied(b2, x) && b2[x]->0.kind.index()
                == i) by {
                assert(p0.role_bb[i].has(x) <==> rules::occupied(b, x) && b[x]->0.kind.index() == i);
                if p0.role_bb[i].has(x) {
                    assert(geom::on_board(x));
                }
            }
            assert forall|x: int| #[trigger] self.side_bb[0].has(x) <==> rules::owned(b2, x, Color::White) by {
                assert(p0.side_bb[0].has(x) <==> rules::owned(b, x, Color::White));
            }
            assert forall|x: int| #[trigger] self.side_bb[1].has(x) <==> rules::owned(b2, x, Color::Black) by {
                assert(p0.side_bb[1].has(x) <==> rules::owned(b, x, Color::Black));
            }
            assert(self.mirrored());
            lemma_keys_update(b, s, None);
            let st = zobrist::state_word(self.castling_rights@, self.en_passant, self.stm);
            zobrist::lemma_swap(zobrist::key(KeyKind::All, b), st, zobrist::cell_word(KeyKind::All, Some(m), s));
            lemma_sums_update(b, s, None);
        }
        acc.mg = acc.mg - w.mg;
        acc.eg = acc.eg - w.eg;
        acc.phase = acc.phase - w.phase;
        m
    }

    /// Replaces castling rights, en passant square and side to move.
    fn set_state(&mut self, rights: [bool; 4], ep: Option<Square>, stm: Color)
        requires
            old(self).coherent(),
        ensures
            final(self).coherent(),
            final(self).board() == old(self).board(),
            final(self).castling_rights == rights,
            final(self).en_passant == ep,
            final(self).stm == stm,
            final(self).castling_rooks == old(self).castling_rooks,
            final(self).halfmove_clock == old(self).halfmove_clock,
            final(self).fullmove_number == old(self).fullmove_number,
            final(self).is_frc == old(self).is_frc,
    {
        let a: u64 = zobrist::state_word_of(&self.castling_rights, self.en_passant, self.stm);
        let b: u64 = zobrist::state_word_of(&rights, ep, stm);
        proof {
            zobrist::lemma_swap(zobrist::key(KeyKind::All, self.board()), a, b);
        }
        self.hash = self.hash ^ a ^ b;
        self.castling_rights = rights;
        self.en_passant = ep;
        self.stm = stm;
    }
}

/// What changing one cell does to the four keys.
proof fn lemma_keys_update(b: Seq<Cell>, s: int, x: Cell)
    requires
        b.len() == 64,
        0 <= s < 64,
        x is None || b[s] is None,
    ensures
        forall|k: KeyKind| #[trigger]
            zobrist::key(k, b.update(s, x)) == zobrist::key(k, b) ^ zobrist::cell_word(
                k,
                if x is None {
                    b[s]
                } else {
                    x
                },
                s,
            ),
{
    assert forall|k: KeyKind| #[trigger]
        zobrist::key(k, b.update(s, x)) == zobrist::key(k, b) ^ zobrist::cell_word(
            k,
            if x is None {
                b[s]
            } else {
                x
            },
            s,
        ) by {
        zobrist::lemma_key_update(k, b, s, x, 64);
        let f = zobrist::key(k, b);
        zobrist::lemma_swap(f, 0, 0);
        zobrist::lemma_swap(f ^ zobrist::cell_word(k, b[s], s), 0, 0);
    }
}

/// What changing one cell does to the three sums.
proof fn lemma_sums_update(b: Seq<Cell>, s: int, x: Cell)
    requires
        b.len() == 64,
        0 <= s < 64,
    ensures
        forall|l: Lane| #[trigger]
            psq::sum(l, b.update(s, x)) == psq::sum(l, b) + psq::cell_worth(l, x, s) - psq::cell_worth(l, b[s], s),
        forall|l: Lane| -4194304 <= #[trigger] psq::sum(l, b.update(s, x)) <= 4194304,
        forall|l: Lane| -4194304 <= #[trigger] psq::sum(l, b) <= 4194304,
{
    assert forall|l: Lane| #[trigger]
        psq::sum(l, b.update(s, x)) == psq::sum(l, b) + psq::cell_worth(l, x, s) - psq::cell_worth(l, b[s], s) by {
        psq::lemma_sum_update(l, b, s, x, 64);
    }
    assert forall|l: Lane| -4194304 <= #[trigger] psq::sum(l, b.update(s, x)) <= 4194304 by {
        psq::lemma_sum_bound(l, b.update(s, x), 64);
    }
    assert forall|l: Lane| -4194304 <= #[trigger] psq::sum(l, b) <= 4194304 by {
        psq::lemma_sum_bound(l, b, 64);
    }
}


/// What a man of the side to move takes is never the enemy king.
pub proof fn lemma_no_king_capture(p: Position, mv: Move)
    requires
        p.wf(),
        legal::pseudo_legal(p, mv),
        !mv.castles(),
    ensures
        mv.dst() != position::king_of(p.board(), p.stm.other()),
        p.board()[mv.dst()] != rules::man(p.stm.other(), PieceType::King),
{
    let b = p.board();
    let k = position::king_of(b, p.stm.other());
    assert(position::king_at(b, p.stm.other(), k));
    if mv.dst() == k || b[mv.dst()] == rules::man(p.stm.other(), PieceType::King) {
        assert(mv.dst() == k);
        assert(rules::owned(b, k, p.stm.other()));
        if b[mv.src()]->0.kind == PieceType::Pawn {
            assert(mv.captures());
        }
        assert(rules::hits(b, p.stm, mv.src(), k));
    }
}

/// Where the kings stand after a move.
pub proof fn lemma_kings_after(p: Position, mv: Move)
    requires
        p.wf(),
        legal::pseudo_legal(p, mv),
    ensures
        position::king_at(
            rules::after(p.board(), p.stm, mv),
            p.stm,
            rules::king_after(position::king_of(p.board(), p.stm), mv),
        ),
        position::king_at(
            rules::after(p.board(), p.stm, mv),
            p.stm.other(),
            position::king_of(p.board(), p.stm.other()),
        ),
{
    let b = p.board();
    let c = p.stm;
    let o = c.other();
    let k = position::king_of(b, c);
    let j = position::king_of(b, o);
    assert(position::king_at(b, c, k));
    assert(position::king_at(b, o, j));
    let b2 = rules::after(b, c, mv);
    let f = mv.src();
    let t = mv.dst();
    if mv.castles() {
        let i = choose|i: int|
            0 <= i < 4 && position::castling_side(i) == c && #[trigger] p.castling_rights[i]
                && p.castling_rooks[i].at() == t;
        assert(p.castling_sound(i));
        assert(f == k);
        let kd = rules::castle_king(f, t);
        let rd = rules::castle_rook(f, t);
        assert(legal::corridor(f, t, kd) && legal::corridor(f, t, rd));
        assert(kd != f && kd != t ==> b[kd] is None);
        assert(rd != f && rd != t ==> b[rd] is None);
    } else {
        lemma_no_king_capture(p, mv);
        if b[f]->0.kind == PieceType::King {
            assert(f == k);
        }
        if mv.takes_ep() {
            assert(p.en_passant matches Some(q) && q.at() == t);
        }
    }
    assert forall|s: int| geom::on_board(s) && #[trigger] b2[s] == rules::man(o, PieceType::King) implies s == j by {
        assert(b[s] == rules::man(o, PieceType::King));
    }
    let k2 = rules::king_after(k, mv);
    assert forall|s: int| geom::on_board(s) && #[trigger] b2[s] == rules::man(c, PieceType::King) implies s == k2 by {
        if s != k2 {
            assert(b[s] == rules::man(c, PieceType::King));
        }
    }
}

/// The men a move shifts stand where the move says, and its squares are free for them.
proof fn lemma_men_ready(p: Position, mv: Move)
    requires
        p.wf(),
        legal::pseudo_legal(p, mv),
    ensures
        mv.src() != mv.dst(),
        rules::owned(p.board(), mv.src(), p.stm),
        mv.castles() ==> {
            let kd = rules::castle_king(mv.src(), mv.dst());
            let rd = rules::castle_rook(mv.src(), mv.dst());
            &&& p.board()[mv.src()] == rules::man(p.stm, PieceType::King)
            &&& p.board()[mv.dst()] == rules::man(p.stm, PieceType::Rook)
            &&& kd != mv.src() && kd != mv.dst() ==> p.board()[kd] is None
            &&& rd != mv.src() && rd != mv.dst() ==> p.board()[rd] is None
        },
        mv.takes_ep() ==> {
            &&& p.board()[mv.dst()] is None
            &&& rules::owned(p.board(), rules::ep_victim(p.stm, mv.dst()), p.stm.other())
        },
{
    let b = p.board();
    if mv.castles() {
        let kd = rules::castle_king(mv.src(), mv.dst());
        let rd = rules::castle_rook(mv.src(), mv.dst());
        assert(legal::corridor(mv.src(), mv.dst(), kd) && legal::corridor(mv.src(), mv.dst(), rd));
        assert(kd != mv.src() && kd != mv.dst() ==> b[kd] is None);
        assert(rd != mv.src() && rd != mv.dst() ==> b[rd] is None);
    } else if mv.takes_ep() {
        assert(p.en_passant matches Some(q) && q.at() == mv.dst());
    }
}

/// A legal move leads from a sound position to a sound position.
proof fn lemma_wf_after(p: Position, q: Position, mv: Move)
    requires
        p.wf(),
        legal::legal(p, mv),
        q.coherent(),
        q.board() == rules::after(p.board(), p.stm, mv),
        q.castling_rooks == p.castling_rooks,
        q.castling_rights@ == legal::rights_after(p, mv),
        q.en_passant == legal::ep_after(p, mv),
        q.stm == p.stm.other(),
    ensures
        q.wf(),
{
    let b = p.board();
    let b2 = q.board();
    let c = p.stm;
    let o = c.other();
    let f = mv.src();
    let t = mv.dst();
    lemma_kings_after(p, mv);
    let k = position::king_of(b, c);
    let j = position::king_of(b, o);
    let k2 = rules::king_after(k, mv);
    position::lemma_king_of(b2, c, k2);
    position::lemma_king_of(b2, o, j);
    assert(position::king_at(b, c, k));
    assert(position::king_at(b, o, j));
    assert(position::one_king_each(b2)) by {
        match c {
            Color::White => {
                assert(position::king_at(b2, Color::White, k2));
                assert(position::king_at(b2, Color::Black, j));
            },
            Color::Black => {
                assert(position::king_at(b2, Color::Black, k2));
                assert(position::king_at(b2, Color::White, j));
            },
        }
    }
    if mv.castles() {
        let i = choose|i: int|
            0 <= i < 4 && position::castling_side(i) == c && #[trigger] p.castling_rights[i]
                && p.castling_rooks[i].at() == t;
        assert(p.castling_sound(i));
    }
    if mv.takes_ep() && !mv.castles() {
        assert(p.en_passant matches Some(q) && q.at() == t);
    }
    assert forall|i: int| 0 <= i < 4 implies #[trigger] q.castling_sound(i) by {
        assert(p.castling_sound(i));
        if q.castling_rights[i] {
            assert(q.castling_rights@[i]);
            assert(p.castling_rights[i]);
            let r = p.castling_rooks[i].at();
            if position::castling_side(i) == c {
                assert(f != k);
            }
            assert(b2[r] == b[r]);
        }
    }
    if mv.double_push() && !mv.castles() {
        assert(b[f]->0.kind == PieceType::Pawn);
        let e = f + 8 * c.up();
        assert(q.before_push(e) =~= b);
        assert(q.ep_sound());
    }
    assert(q.pawns_sound()) by {
        assert forall|s: int|
            geom::on_board(s) && (#[trigger] q.board()[s]) is Some && q.board()[s]->0.kind == PieceType::Pawn implies 1
            <= geom::rank(s) <= 6 by {
            if s != t || mv.castles() {
                if b2[s] == b[s] {
                    assert(b[s]->0.kind == PieceType::Pawn);
                }
            } else {
                assert(b[f] is Some);
                assert(b[f]->0.kind == PieceType::Pawn);
                assert(1 <= geom::rank(f) <= 6);
            }
        }
    }
}

impl Position {
    /// The castling rights that `mv` leaves.
    fn rights_left(&self, mv: Move) -> (r: [bool; 4])
        requires
            self.board()[mv.src()] is Some,
        ensures
            r@ == legal::rights_after(*self, mv),
    {
        let king_moves = self.piece_at(mv.from()) == PieceType::King;
        let mut r: [bool; 4] = self.castling_rights;
        let mut i: usize = 0;
        while i < 4
            invariant
                i <= 4,
                king_moves == (self.board()[mv.src()]->0.kind == PieceType::King),
                forall|j: int| 0 <= j < i ==> #[trigger] r@[j] == legal::rights_after(*self, mv)[j],
                forall|j: int| i <= j < 4 ==> #[trigger] r@[j] == self.castling_rights[j],
            decreases 4 - i,
        {
            let rook = self.castling_rooks[i];
            let ours = (i < 2) == (self.stm == Color::White);
            if mv.from() == rook || mv.to() == rook || (ours && king_moves) {
                r[i] = false;
            }
            i = i + 1;
        }
        assert(r@ =~= legal::rights_after(*self, mv));
        r
    }

    /// Takes over castling rights and side to move, with no en passant square.
    pub fn adopt(&mut self, rights: [bool; 4], stm: Color)
        requires
            old(self).coherent(),
        ensures
            final(self).coherent(),
            final(self).board() == old(self).board(),
            final(self).castling_rights == rights,
            final(self).en_passant is None,
            final(self).stm == stm,
            final(self).castling_rooks == old(self).castling_rooks,
            final(self).halfmove_clock == old(self).halfmove_clock,
            final(self).fullmove_number == old(self).fullmove_number,
            final(self).is_frc == old(self).is_frc,
    {
        self.set_state(rights, None, stm);
    }

    /// Sets the en passant square.
    pub fn pass_over(&mut self, t: Square)
        requires
            old(self).coherent(),
        ensures
            final(self).coherent(),
            final(self).board() == old(self).board(),
            final(self).castling_rights == old(self).castling_rights,
            final(self).en_passant == Some(t),
            final(self).stm == old(self).stm,
            final(self).castling_rooks == old(self).castling_rooks,
            final(self).halfmove_clock == old(self).halfmove_clock,
            final(self).fullmove_number == old(self).fullmove_number,
            final(self).is_frc == old(self).is_frc,
    {
        self.set_state(self.castling_rights, Some(t), self.stm);
    }

    /// The square a double push passes over.
    fn passed_square(&self, mv: Move) -> (ep: Option<Square>)
        requires
            legal::pseudo_legal(*self, mv),
            rules::placement(self.board()),
        ensures
            ep == legal::ep_after(*self, mv),
    {
        let from = mv.from();
        if mv.is_double_push() {
            proof {
                assert(self.board()[mv.src()]->0.kind == PieceType::Pawn);
            }
            match self.stm {
                Color::White => Some(Square(from.0 + 8)),
                Color::Black => Some(Square(from.0 - 8)),
            }
        } else {
            None
        }
    }

    /// Moves king and rook for a castling.
    fn shift_castle(&mut self, from: Square, to: Square, acc: &mut Accumulator)
        requires
            old(self).coherent(),
            from.ok(),
            to.ok(),
            from != to,
            old(self).board()[from.at()] == rules::man(old(self).stm, PieceType::King),
            old(self).board()[to.at()] == rules::man(old(self).stm, PieceType::Rook),
            ({
                let b = old(self).board();
                let kd = rules::castle_king(from.at(), to.at());
                let rd = rules::castle_rook(from.at(), to.at());
                &&& kd != from.at() && kd != to.at() ==> b[kd] is None
                &&& rd != from.at() && rd != to.at() ==> b[rd] is None
            }),
            old(acc).of(old(self).board()),
        ensures
            final(self).coherent(),
            final(self).board() == rules::after_castle(old(self).board(), old(self).stm, from.at(), to.at()),
            final(self).same_state(*old(self)),
            final(acc).of(final(self).board()),
    {
        let rank: u8 = from.rank();
        let kingside = to.0 > from.0;
        let (kf, rf): (u8, u8) = if kingside {
            (6, 5)
        } else {
            (2, 3)
        };
        let kd = Square::from_coords(kf, rank);
        let rd = Square::from_coords(rf, rank);
        let king = self.lift(from, acc);
        let rook = self.lift(to, acc);
        self.put(king, kd, acc);
        self.put(rook, rd, acc);
    }

    /// Moves the pawn of an en passant capture and takes the other off.
    fn shift_ep(&mut self, from: Square, to: Square, acc: &mut Accumulator)
        requires
            old(self).coherent(),
            from.ok(),
            to.ok(),
            from != to,
            rules::owned(old(self).board(), from.at(), old(self).stm),
            old(self).board()[to.at()] is None,
            geom::on_board(rules::ep_victim(old(self).stm, to.at())),
            rules::owned(old(self).board(), rules::ep_victim(old(self).stm, to.at()), old(self).stm.other()),
            old(acc).of(old(self).board()),
        ensures
            final(self).coherent(),
            final(self).board() == old(self).board().update(from.at(), None).update(
                to.at(),
                old(self).board()[from.at()],
            ).update(rules::ep_victim(old(self).stm, to.at()), None),
            final(self).same_state(*old(self)),
            final(acc).of(final(self).board()),
    {
        let victim = match self.stm {
            Color::White => Square(to.0 - 8),
            Color::Black => Square(to.0 + 8),
        };
        proof {
            assert(self.board()[from.at()]->0.kind != PieceType::Empty);
        }
        let pawn = self.lift(from, acc);
        self.put(pawn, to, acc);
        let _ = self.lift(victim, acc);
    }

    /// Moves a man, taking what stands on its destination.
    fn shift_plain(&mut self, mv: Move, acc: &mut Accumulator)
        requires
            old(self).coherent(),
            mv.src() != mv.dst(),
            rules::owned(old(self).board(), mv.src(), old(self).stm),
            !mv.castles(),
            !mv.takes_ep(),
            old(acc).of(old(self).board()),
        ensures
            final(self).coherent(),
            final(self).board() == rules::after(old(self).board(), old(self).stm, mv),
            final(self).same_state(*old(self)),
            final(acc).of(final(self).board()),
    {
        let ghost b = self.board();
        let us = self.stm;
        let from = mv.from();
        let to = mv.to();
        proof {
            assert(b[mv.src()]->0.kind != PieceType::Empty);
        }
        if self.cells[to.0 as usize].is_some() {
            let _ = self.lift(to, acc);
        }
        let mover = self.lift(from, acc);
        let man = match mv.promo() {
            Some(pt) => Man { color: us, kind: pt },
            None => mover,
        };
        self.put(man, to, acc);
        assert(self.board() =~= rules::after(b, us, mv));
    }

    /// Plays a legal move and returns the position as it was before.
    pub fn make_move(&mut self, mv: Move, acc: &mut Accumulator) -> (undo: Position)
        requires
            old(self).wf(),
            legal::legal(*old(self), mv),
            old(acc).of(old(self).board()),
        ensures
            undo == *old(self),
            final(self).wf(),
            final(self).board() == rules::after(old(self).board(), old(self).stm, mv),
            final(self).stm == old(self).stm.other(),
            final(self).castling_rooks == old(self).castling_rooks,
            final(self).castling_rights@ == legal::rights_after(*old(self), mv),
            final(self).en_passant == legal::ep_after(*old(self), mv),
            final(self).is_frc == old(self).is_frc,
            final(self).halfmove_clock == legal::clock_after(*old(self), mv),
            final(self).fullmove_number == legal::number_after(*old(self)),
            final(acc).of(final(self).board()),
    {
        let undo = *self;
        let us = self.stm;
        let ghost b = self.board();
        proof {
            lemma_men_ready(undo, mv);
        }
        let rights = self.rights_left(mv);
        let resets = mv.is_capture() || self.piece_at(mv.from()) == PieceType::Pawn;
        let ep = self.passed_square(mv);
        if mv.is_castling() {
            self.shift_castle(mv.from(), mv.to(), acc);
        } else if mv.is_en_passant() {
            self.shift_ep(mv.from(), mv.to(), acc);
        } else {
            self.shift_plain(mv, acc);
        }
        self.set_state(rights, ep, us.opposite());
        self.halfmove_clock = if resets {
            0
        } else {
            self.halfmove_clock.saturating_add(1)
        };
        if us == Color::Black {
            self.fullmove_number = self.fullmove_number.saturating_add(1);
        }
        proof {
            lemma_wf_after(undo, *self, mv);
        }
        undo
    }

    /// Takes a move back: the position is again the one that was saved.
    pub fn unmake_move(&mut self, undo: Position)
        ensures
            *final(self) == undo,
    {
        *self = undo;
    }

    /// Passes the move to the other side and returns the position as it was before.
    pub fn make_null_move(&mut self) -> (undo: Position)
        requires
            old(self).wf(),
            !rules::attacked(
                old(self).board(),
                old(self).stm.other(),
                position::king_of(old(self).board(), old(self).stm),
            ),
        ensures
            undo == *old(self),
            final(self).wf(),
            final(self).board() == old(self).board(),
            final(self).stm == old(self).stm.other(),
            final(self).castling_rights == old(self).castling_rights,
            final(self).castling_rooks == old(self).castling_rooks,
            final(self).en_passant is None,
            final(self).is_frc == old(self).is_frc,
            final(self).fullmove_number == old(self).fullmove_number,
            final(self).halfmove_clock == legal::ticked(old(self).halfmove_clock),
    {
        let undo = *self;
        self.set_state(self.castling_rights, None, self.stm.opposite());
        self.halfmove_clock = self.halfmove_clock.saturating_add(1);
        proof {
            assert forall|i: int| 0 <= i < 4 implies #[trigger] self.castling_sound(i) by {
                assert(undo.castling_sound(i));
            }
        }
        undo
    }
}

} // verus!
