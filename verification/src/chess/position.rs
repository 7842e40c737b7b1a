//! A position: the men on the board and the state of the game.

use vstd::prelude::*;

use crate::chess::attacks::{atk_bishop, atk_king, atk_knight, atk_pawn, atk_rook, between_bb};
use crate::chess::bitboard::Bitboard;
use crate::chess::geom;
use crate::chess::psq::{self, Accumulator};
use crate::chess::rules::{self, Cell};
use crate::chess::types::{Color, PieceType, Square};
use crate::chess::zobrist::{self, KeyKind};

verus! {

/// Castling rights and rooks are listed white kingside, white queenside, black kingside,
/// black queenside.
pub const ROOK_W_KS: usize = 0;

pub const ROOK_W_QS: usize = 1;

pub const ROOK_B_KS: usize = 2;

pub const ROOK_B_QS: usize = 3;

/// A chess position.
#[derive(Clone, Copy, Debug)]
pub struct Position {
    /// What stands on each square.
    pub cells: [Cell; 64],
    /// The men of each side.
    pub side_bb: [Bitboard; 2],
    /// The men of each kind, pawn first.
    pub role_bb: [Bitboard; 6],
    /// All men.
    pub occ: Bitboard,
    /// The key of the whole position.
    pub hash: u64,
    /// The key of the pawns alone.
    pub pawn_key: u64,
    /// The key of the knights and bishops.
    pub minor_key: u64,
    /// The key of the rooks and queens.
    pub major_key: u64,
    /// Which of the four castlings are still allowed.
    pub castling_rights: [bool; 4],
    /// The home squares of the castling rooks.
    pub castling_rooks: [Square; 4],
    /// The side to move.
    pub stm: Color,
    /// The square a pawn has just passed over.
    pub en_passant: Option<Square>,
    /// Plies since the last capture or pawn move.
    pub halfmove_clock: u32,
    /// The number of the move about to be played.
    pub fullmove_number: u32,
    /// Whether castling moves are written king takes rook.
    pub is_frc: bool,
}

/// The side that castling `i` belongs to.
pub open spec fn castling_side(i: int) -> Color {
    if i < 2 {
        Color::White
    } else {
        Color::Black
    }
}

/// The rank the men of side `c` start on.
pub open spec fn back_rank(c: Color) -> int {
    match c {
        Color::White => 0,
        Color::Black => 7,
    }
}

/// Whether the only king of side `c` stands on `k`.
pub open spec fn king_at(b: Seq<Cell>, c: Color, k: int) -> bool {
    &&& geom::on_board(k)
    &&& b[k] == rules::man(c, PieceType::King)
    &&& forall|s: int| geom::on_board(s) && #[trigger] b[s] == rules::man(c, PieceType::King) ==> s == k
}

/// Whether each side has one king.
pub open spec fn one_king_each(b: Seq<Cell>) -> bool {
    &&& exists|k: int| king_at(b, Color::White, k)
    &&& exists|k: int| king_at(b, Color::Black, k)
}

/// The square of side `c`'s king.
pub open spec fn king_of(b: Seq<Cell>, c: Color) -> int {
    choose|k: int| king_at(b, c, k)
}

impl Position {
    /// What stands where.
    pub open spec fn board(self) -> Seq<Cell> {
        self.cells@
    }

    /// The sets of squares mirror the board.
    pub open spec fn mirrored(self) -> bool {
        &&& rules::placement(self.board())
        &&& rules::occupancy_of(self.occ, self.board())
        &&& forall|s: int| #[trigger] self.side_bb[0].has(s) <==> rules::owned(self.board(), s, Color::White)
        &&& forall|s: int| #[trigger] self.side_bb[1].has(s) <==> rules::owned(self.board(), s, Color::Black)
        &&& forall|i: int, s: int|
            0 <= i < 6 ==> (#[trigger] self.role_bb[i].has(s) <==> rules::occupied(self.board(), s) && self.board()[s]->0.kind.index()
                == i)
    }

    /// The four keys are those of the board and the state.
    pub open spec fn keyed(self) -> bool {
        &&& self.hash == zobrist::key(KeyKind::All, self.board()) ^ zobrist::state_word(
            self.castling_rights@,
            self.en_passant,
            self.stm,
        )
        &&& self.pawn_key == zobrist::key(KeyKind::Pawn, self.board())
        &&& self.minor_key == zobrist::key(KeyKind::Minor, self.board())
        &&& self.major_key == zobrist::key(KeyKind::Major, self.board())
    }

    /// The redundant parts of the position agree with each other.
    pub open spec fn coherent(self) -> bool {
        self.mirrored() && self.keyed()
    }

    /// Castling `i` is only allowed while king and rook stand at home.
    pub open spec fn castling_sound(self, i: int) -> bool {
        let c = castling_side(i);
        let r = self.castling_rooks[i].at();
        let k = king_of(self.board(), c);
        self.castling_rights[i] ==> {
            &&& geom::on_board(r)
            &&& geom::rank(r) == back_rank(c)
            &&& geom::rank(k) == back_rank(c)
            &&& self.board()[r] == rules::man(c, PieceType::Rook)
            &&& if i % 2 == 0 {
                r > k
            } else {
                r < k
            }
        }
    }

    /// The board before the double push that left the en passant square `t`.
    pub open spec fn before_push(self, t: int) -> Seq<Cell> {
        self.board().update(rules::ep_victim(self.stm, t), None).update(
            t + 8 * self.stm.up(),
            rules::man(self.stm.other(), PieceType::Pawn),
        )
    }

    /// The en passant square lies behind a pawn that has just moved two steps, and the
    /// side to move was not in check before it did.
    pub open spec fn ep_sound(self) -> bool {
        self.en_passant matches Some(t) ==> {
            &&& t.ok()
            &&& geom::rank(t.at()) == (if self.stm == Color::White {
                5
            } else {
                2int
            })
            &&& self.board()[t.at()] is None
            &&& self.board()[t.at() + 8 * self.stm.up()] is None
            &&& self.board()[rules::ep_victim(self.stm, t.at())] == rules::man(self.stm.other(), PieceType::Pawn)
            &&& !rules::attacked(
                self.before_push(t.at()),
                self.stm.other(),
                king_of(self.board(), self.stm),
            )
        }
    }

    /// No pawn stands on the first or last rank.
    pub open spec fn pawns_sound(self) -> bool {
        forall|s: int|
            geom::on_board(s) && (#[trigger] self.board()[s]) is Some && self.board()[s]->0.kind == PieceType::Pawn ==> 1
                <= geom::rank(s) <= 6
    }

    /// The side that has just moved is not in check.
    pub open spec fn mover_safe(self) -> bool {
        !rules::attacked(self.board(), self.stm, king_of(self.board(), self.stm.other()))
    }

    /// Everything that every reachable position satisfies.
    pub open spec fn wf(self) -> bool {
        &&& self.coherent()
        &&& one_king_each(self.board())
        &&& forall|i: int| 0 <= i < 4 ==> #[trigger] self.castling_sound(i)
        &&& self.ep_sound()
        &&& self.pawns_sound()
        &&& self.mover_safe()
    }

    /// The men of side `c`.
    pub fn side(&self, c: Color) -> (b: Bitboard)
        requires
            self.mirrored(),
        ensures
            forall|s: int| #[trigger] b.has(s) <==> rules::owned(self.board(), s, c),
    {
        self.side_bb[c.idx()]
    }

    /// The men of kind `pt` of either side.
    pub fn role(&self, pt: PieceType) -> (b: Bitboard)
        requires
            self.mirrored(),
            pt != PieceType::Empty,
        ensures
            forall|s: int| #[trigger]
                b.has(s) <==> rules::occupied(self.board(), s) && self.board()[s]->0.kind == pt,
    {
        self.role_bb[pt.idx()]
    }

    /// The men of kind `pt` of side `c`.
    pub fn pieces(&self, pt: PieceType, c: Color) -> (b: Bitboard)
        requires
            self.mirrored(),
            pt != PieceType::Empty,
        ensures
            forall|s: int| #[trigger]
                b.has(s) <==> geom::on_board(s) && self.board()[s] == rules::man(c, pt),
    {
        self.role(pt).and(self.side(c))
    }

    /// All men.
    pub fn occupancy(&self) -> (b: Bitboard)
        requires
            self.mirrored(),
        ensures
            rules::occupancy_of(b, self.board()),
    {
        self.occ
    }

    /// The kind of man on `sq`, `Empty` where there is none.
    pub fn piece_at(&self, sq: Square) -> (pt: PieceType)
        requires
            sq.ok(),
        ensures
            pt == (match self.board()[sq.at()] {
                Some(m) => m.kind,
                None => PieceType::Empty,
            }),
    {
        match self.cells[sq.0 as usize] {
            Some(m) => m.kind,
            None => PieceType::Empty,
        }
    }

    /// The side of the man on `sq`.
    pub fn color_at(&self, sq: Square) -> (c: Option<Color>)
        requires
            sq.ok(),
        ensures
            c == (match self.board()[sq.at()] {
                Some(m) => Some(m.color),
                None => None,
            }),
    {
        match self.cells[sq.0 as usize] {
            Some(m) => Some(m.color),
            None => None,
        }
    }

    /// The square of side `c`'s king.
    pub fn king_square(&self, c: Color) -> (k: Square)
        requires
            self.mirrored(),
            one_king_each(self.board()),
        ensures
            k.ok(),
            king_at(self.board(), c, k.at()),
            k.at() == king_of(self.board(), c),
    {
        let b = self.pieces(PieceType::King, c);
        proof {
            let k = king_of(self.board(), c);
            assert(king_at(self.board(), c, k));
            assert(b.has(k));
            if b.0 == 0 {
                crate::chess::bitboard::lemma_zero(k);
                assert(b == Bitboard(0));
            }
        }
        b.lsb()
    }

    /// The piece-square sums of the board.
    pub fn get_initial_accumulator(&self) -> (a: Accumulator)
        ensures
            a.of(self.board()),
    {
        psq::accumulate(&self.cells)
    }

    /// The men of side `by` that attack `sq` when the men of `occ` stand in the way.
    pub fn attackers(&self, sq: Square, by: Color, occ: Bitboard) -> (r: Bitboard)
        requires
            self.mirrored(),
            sq.ok(),
        ensures
            forall|a: int| #[trigger]
                r.has(a) <==> rules::owned(self.board(), a, by) && rules::reaches(
                    occ,
                    by,
                    self.board()[a]->0.kind,
                    a,
                    sq.at(),
                ),
    {
        let pawns = atk_pawn(sq, by.opposite()).and(self.pieces(PieceType::Pawn, by));
        let knights = atk_knight(sq).and(self.pieces(PieceType::Knight, by));
        let kings = atk_king(sq).and(self.pieces(PieceType::King, by));
        let queens = self.pieces(PieceType::Queen, by);
        let diag = atk_bishop(sq, occ).and(self.pieces(PieceType::Bishop, by).or(queens));
        let ortho = atk_rook(sq, occ).and(self.pieces(PieceType::Rook, by).or(queens));
        let r = pawns.or(knights).or(kings).or(diag.or(ortho));
        proof {
            let t = sq.at();
            assert forall|a: int| #[trigger]
                r.has(a) <==> rules::owned(self.board(), a, by) && rules::reaches(
                    occ,
                    by,
                    self.board()[a]->0.kind,
                    a,
                    t,
                ) by {
                if geom::on_board(a) {
                    rules::lemma_clear_symmetric(occ, a, t);
                    assert(self.board()[a] is Some ==> self.board()[a]->0.kind != PieceType::Empty);
                }
            }
        }
        r
    }

    /// The men of side `by` that attack `sq`.
    pub fn get_attackers_on(&self, sq: Square, by: Color) -> (r: Bitboard)
        requires
            self.mirrored(),
            sq.ok(),
        ensures
            forall|a: int| #[trigger] r.has(a) <==> rules::hits(self.board(), by, a, sq.at()),
    {
        proof {
            rules::lemma_reaches(self.board(), self.occ);
        }
        self.attackers(sq, by, self.occ)
    }

    /// The enemy men that attack the king of the side to move.
    pub fn checkers(&self) -> (r: Bitboard)
        requires
            self.wf(),
        ensures
            forall|a: int| #[trigger]
                r.has(a) <==> rules::hits(self.board(), self.stm.other(), a, king_of(self.board(), self.stm)),
    {
        self.get_attackers_on(self.king_square(self.stm), self.stm.opposite())
    }

    /// Whether side `by` would attack `sq` if the man on `gone` were off the board.
    pub fn is_attacked(&self, sq: Square, by: Color, gone: Square) -> (r: bool)
        requires
            self.mirrored(),
            sq.ok(),
            gone.ok(),
            rules::owned(self.board(), gone.at(), by.other()),
        ensures
            r == rules::attacked(self.board().update(gone.at(), None), by, sq.at()),
    {
        let occ = self.occ.xor(gone.bitboard());
        let found = self.attackers(sq, by, occ);
        let ghost b2 = self.board().update(gone.at(), None);
        proof {
            assert(rules::occupancy_of(occ, b2)) by {
                assert forall|s: int| #[trigger] occ.has(s) <==> rules::occupied(b2, s) by {}
            }
            rules::lemma_reaches(b2, occ);
            assert forall|a: int| #[trigger] found.has(a) <==> rules::hits(b2, by, a, sq.at()) by {}
            if rules::attacked(b2, by, sq.at()) {
                let a = choose|a: int| #[trigger] rules::hits(b2, by, a, sq.at());
                assert(found.has(a));
            }
        }
        found.is_not_empty()
    }

    /// The men that alone keep an enemy slider off the king of side `c`.
    pub fn blockers(&self, c: Color) -> (r: Bitboard)
        requires
            self.mirrored(),
            one_king_each(self.board()),
        ensures
            forall|s: int| #[trigger] r.has(s) <==> rules::blocks(self.board(), c.other(), king_of(self.board(), c), s),
    {
        let k = self.king_square(c);
        let them = c.opposite();
        let none = Bitboard::empty();
        let queens = self.pieces(PieceType::Queen, them);
        let diag = atk_bishop(k, none).and(self.pieces(PieceType::Bishop, them).or(queens));
        let ortho = atk_rook(k, none).and(self.pieces(PieceType::Rook, them).or(queens));
        let snipers = diag.or(ortho);
        let ghost b = self.board();
        proof {
            assert forall|a: int| #[trigger] snipers.has(a) <==> rules::sniper(b, them, a, k.at()) by {
                assert(geom::clear(none, k.at(), a));
            }
        }
        let mut left = snipers;
        let mut r = Bitboard::empty();
        while left.is_not_empty()
            invariant
                self.mirrored(),
                k.ok(),
                b == self.board(),
                forall|a: int| #[trigger] snipers.has(a) <==> rules::sniper(b, them, a, k.at()),
                forall|a: int| #[trigger] left.has(a) ==> snipers.has(a),
                forall|s: int| #[trigger]
                    r.has(s) <==> exists|a: int| #[trigger]
                        snipers.has(a) && !left.has(a) && rules::sole_blocker(b, a, k.at(), s),
            decreases left.0,
        {
            let ghost left0 = left;
            let ghost r0 = r;
            let a = left.pop_lsb();
            let seg = between_bb(a, k).and(self.occ);
            if seg.is_not_empty() && !seg.more_than_one() {
                r = r.or(seg);
            }
            proof {
                assert forall|s: int| rules::sole_blocker(b, a.at(), k.at(), s) <==> {
                    &&& seg.has(s)
                    &&& forall|x: int| #[trigger] seg.has(x) ==> x == s
                } by {
                    if rules::sole_blocker(b, a.at(), k.at(), s) {
                        assert(seg.has(s));
                        assert forall|x: int| #[trigger] seg.has(x) implies x == s by {
                            if x != s {
                                assert(b[x] is None);
                            }
                        }
                    }
                    if seg.has(s) && (forall|x: int| #[trigger] seg.has(x) ==> x == s) {
                        assert forall|x: int| geom::between(a.at(), k.at(), x) && x != s implies (#[trigger] b[x]) is None by {
                            assert(!seg.has(x));
                            assert(geom::on_board(x));
                        }
                    }
                }
                assert forall|s: int| #[trigger]
                    r.has(s) <==> exists|x: int| #[trigger]
                        snipers.has(x) && !left.has(x) && rules::sole_blocker(b, x, k.at(), s) by {
                    if r0.has(s) {
                        let x = choose|x: int| #[trigger]
                            snipers.has(x) && !left0.has(x) && rules::sole_blocker(b, x, k.at(), s);
                        assert(snipers.has(x) && !left.has(x));
                    } else if r.has(s) {
                        assert(snipers.has(a.at()) && !left.has(a.at()));
                        assert(rules::sole_blocker(b, a.at(), k.at(), s));
                    }
                    if exists|x: int| #[trigger]
                        snipers.has(x) && !left.has(x) && rules::sole_blocker(b, x, k.at(), s) {
                        let x = choose|x: int| #[trigger]
                            snipers.has(x) && !left.has(x) && rules::sole_blocker(b, x, k.at(), s);
                        if x != a.at() {
                            assert(!left0.has(x));
                            assert(r0.has(s));
                        } else {
                            assert(seg.has(s));
                        }
                    }
                }
            }
        }
        proof {
            assert forall|s: int| #[trigger] r.has(s) <==> rules::blocks(b, c.other(), k.at(), s) by {
                if r.has(s) {
                    let a = choose|a: int| #[trigger]
                        snipers.has(a) && !left.has(a) && rules::sole_blocker(b, a, k.at(), s);
                    assert(rules::sniper(b, them, a, k.at()));
                }
                if rules::blocks(b, c.other(), k.at(), s) {
                    let a = choose|a: int| #[trigger]
                        rules::sniper(b, c.other(), a, k.at()) && rules::sole_blocker(b, a, k.at(), s);
                    assert(snipers.has(a) && !left.has(a));
                }
            }
        }
        r
    }

    /// The men of either side that alone keep an enemy slider off the king of the side
    /// to move.
    pub fn king_blockers(&self) -> (r: Bitboard)
        requires
            self.wf(),
        ensures
            forall|s: int| #[trigger]
                r.has(s) <==> rules::blocks(self.board(), self.stm.other(), king_of(self.board(), self.stm), s),
    {
        self.blockers(self.stm)
    }

    /// The men of side `c` that are pinned to their king.
    pub fn pinned_pieces(&self, c: Color) -> (r: Bitboard)
        requires
            self.mirrored(),
            one_king_each(self.board()),
        ensures
            forall|s: int| #[trigger]
                r.has(s) <==> rules::owned(self.board(), s, c) && rules::blocks(
                    self.board(),
                    c.other(),
                    king_of(self.board(), c),
                    s,
                ),
    {
        self.blockers(c).and(self.side(c))
    }
}

/// The king's square is the one it stands on.
pub proof fn lemma_king_of(b: Seq<Cell>, c: Color, k: int)
    requires
        king_at(b, c, k),
    ensures
        king_of(b, c) == k,
{
    let j = king_of(b, c);
    assert(king_at(b, c, j));
    assert(b[j] == rules::man(c, PieceType::King));
}

/// Two ways to the same position end in the same keys: placement, rights, en passant square
/// and side to move settle all four.
pub proof fn law_transpositions_share_their_keys(p: Position, q: Position)
    requires
        p.wf(),
        q.wf(),
        p.board() == q.board(),
        p.castling_rights@ == q.castling_rights@,
        p.en_passant == q.en_passant,
        p.stm == q.stm,
    ensures
        p.hash == q.hash,
        p.pawn_key == q.pawn_key,
        p.minor_key == q.minor_key,
        p.major_key == q.major_key,
{
}

} // verus!
