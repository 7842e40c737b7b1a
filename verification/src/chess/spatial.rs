//! What men bear on: pin-aware reach, shadows behind the first man on a line, and rows of
//! attacks kept by square.

use vstd::prelude::*;

use crate::chess::attacks::{atk_bishop, atk_king, atk_knight, atk_pawn, atk_rook, line_bb};
use crate::chess::bitboard::{self, Bitboard, Direction};
use crate::chess::census;
use crate::chess::geom;
use crate::chess::position::{self, Position};
use crate::chess::rules::{self, Cell, Man};
use crate::chess::types::{Color, PieceType, Square};

verus! {

/// Whether the man on `a` is pinned to its own king.
pub open spec fn pinned(b: Seq<Cell>, a: int) -> bool {
    b[a] matches Some(m) && rules::blocks(b, m.color.other(), position::king_of(b, m.color), a)
}

/// What a man other than a king bears on, as far as a pin leaves it free to: a pinned
/// knight can play nothing, a pinned slider keeps the line of the pin, and a pinned pawn
/// is left whole.
pub open spec fn reach(b: Seq<Cell>, a: int, t: int) -> bool {
    match b[a] {
        None => false,
        Some(m) => match m.kind {
            PieceType::King => false,
            PieceType::Empty => false,
            PieceType::Pawn => rules::attacks(b, a, t),
            PieceType::Knight => !pinned(b, a) && rules::attacks(b, a, t),
            _ => rules::attacks(b, a, t) && (pinned(b, a) ==> geom::on_line(position::king_of(b, m.color), a, t)),
        },
    }
}

/// Whether some man of side `c` other than its king bears on `t`.
pub open spec fn borne(b: Seq<Cell>, c: Color, t: int) -> bool {
    exists|a: int| #[trigger] rules::owned(b, a, c) && reach(b, a, t)
}

/// Whether a pawn of side `c` attacks `t`.
pub open spec fn pawn_borne(b: Seq<Cell>, c: Color, t: int) -> bool {
    exists|a: int| geom::on_board(a) && #[trigger] b[a] == rules::man(c, PieceType::Pawn) && geom::pawn_hit(c, a, t)
}

/// What the men of side `c` on the squares below `n` bear on inside `area`, summed man by
/// man.
pub open spec fn mobility_below(b: Seq<Cell>, c: Color, area: Bitboard, n: nat) -> int
    decreases n,
{
    if n == 0 {
        0
    } else {
        mobility_below(b, c, area, (n - 1) as nat) + (if rules::owned(b, n - 1, c) {
            census::tally(|t: int| reach(b, n - 1, t) && area.has(t), 64)
        } else {
            0
        })
    }
}

/// A sum over the men of a side stays small.
pub proof fn lemma_mobility_bounds(b: Seq<Cell>, c: Color, area: Bitboard, n: nat)
    ensures
        0 <= mobility_below(b, c, area, n) <= 64 * n,
    decreases n,
{
    if n > 0 {
        lemma_mobility_bounds(b, c, area, (n - 1) as nat);
        census::lemma_tally_bounds(|t: int| reach(b, n - 1, t) && area.has(t), 64);
    }
}

/// Exactly one man of `occ` stands between `a` and `t`.
pub open spec fn one_between(occ: Bitboard, a: int, t: int) -> bool {
    exists|s: int| #[trigger]
        occ.has(s) && geom::between(a, t, s) && forall|x: int| #[trigger] occ.has(x) && geom::between(a, t, x) ==> x == s
}

/// Of two squares on the way, one lies on the way to the other.
proof fn lemma_order(a: int, t: int, x: int, y: int)
    requires
        geom::on_board(a),
        geom::on_board(t),
        geom::between(a, t, x),
        geom::between(a, t, y),
        x != y,
    ensures
        geom::between(a, x, y) || geom::between(a, y, x),
{
    if geom::file(a) == geom::file(t) {
        if geom::rank(x) == geom::rank(y) {
            geom::lemma_coords(x, y);
        }
    } else if geom::rank(a) == geom::rank(t) {
        if geom::file(x) == geom::file(y) {
            geom::lemma_coords(x, y);
        }
    } else {
        if geom::file(x) == geom::file(y) {
            assert(geom::rank(x) == geom::rank(y));
            geom::lemma_coords(x, y);
        }
    }
}

/// What is on the way to a square on the way is on the way.
proof fn lemma_further(a: int, t: int, s: int, y: int)
    requires
        geom::on_board(a),
        geom::on_board(t),
        geom::between(a, t, s),
        geom::between(a, s, y),
    ensures
        geom::between(a, t, y),
{
}

/// Lifting the men that are seen uncovers the squares with one man in the way.
proof fn lemma_shadow(occ: Bitboard, lifted: Bitboard, a: int, t: int)
    requires
        geom::on_board(a),
        geom::on_board(t),
        geom::aligned(a, t),
        forall|s: int| geom::between(a, t, s) ==> (#[trigger] lifted.has(s) <==> occ.has(s) && !geom::clear(occ, a, s)),
    ensures
        geom::clear(lifted, a, t) && !geom::clear(occ, a, t) <==> one_between(occ, a, t),
{
    if geom::clear(lifted, a, t) && !geom::clear(occ, a, t) {
        let s0 = choose|s: int| #[trigger] occ.has(s) && geom::between(a, t, s);
        assert forall|x: int| #[trigger] occ.has(x) && geom::between(a, t, x) implies x == s0 by {
            assert(!lifted.has(x));
            assert(!lifted.has(s0));
            if x != s0 {
                lemma_order(a, t, x, s0);
            }
        }
    }
    if one_between(occ, a, t) {
        let s = choose|s: int| #[trigger]
            occ.has(s) && geom::between(a, t, s) && forall|x: int| #[trigger]
                occ.has(x) && geom::between(a, t, x) ==> x == s;
        assert(geom::clear(occ, a, s)) by {
            assert forall|y: int| #[trigger] occ.has(y) implies !geom::between(a, s, y) by {
                if geom::between(a, s, y) {
                    lemma_further(a, t, s, y);
                }
            }
        }
        bitboard::lemma_on_board(lifted);
        assert forall|x: int| #[trigger] lifted.has(x) implies !geom::between(a, t, x) by {
            if geom::between(a, t, x) {
                assert(occ.has(x));
            }
        }
    }
}

/// The squares that a slider on `sq` would see past the first man on each line.
fn shadow(sq: Square, occ: Bitboard, ortho: bool) -> (r: Bitboard)
    requires
        sq.ok(),
    ensures
        forall|t: int| #[trigger]
            r.has(t) <==> geom::on_board(t) && (if ortho {
                geom::straight(sq.at(), t)
            } else {
                geom::diagonal(sq.at(), t)
            }) && one_between(occ, sq.at(), t),
{
    let direct = if ortho {
        atk_rook(sq, occ)
    } else {
        atk_bishop(sq, occ)
    };
    let lifted = occ.and(direct.not());
    let far = if ortho {
        atk_rook(sq, lifted)
    } else {
        atk_bishop(sq, lifted)
    };
    let r = far.and(direct.not());
    proof {
        let a = sq.at();
        assert forall|t: int| #[trigger]
            r.has(t) <==> geom::on_board(t) && (if ortho {
                geom::straight(a, t)
            } else {
                geom::diagonal(a, t)
            }) && one_between(occ, a, t) by {
            if geom::on_board(t) && geom::aligned(a, t) && (ortho <==> geom::straight(a, t)) {
                assert forall|s: int| geom::between(a, t, s) implies (#[trigger] lifted.has(s) <==> occ.has(s) && !geom::clear(
                    occ,
                    a,
                    s,
                )) by {}
                lemma_shadow(occ, lifted, a, t);
            }
        }
    }
    r
}

/// A rook or queen, or else a bishop or queen, of side `c` that is not pinned.
pub open spec fn free_slider(b: Seq<Cell>, c: Color, ortho: bool, a: int) -> bool {
    &&& rules::owned(b, a, c)
    &&& !pinned(b, a)
    &&& if ortho {
        b[a]->0.kind.is_ortho()
    } else {
        b[a]->0.kind.is_diag()
    }
}

/// Whether a free slider of side `c` would see `t` past the first man on the line.
pub open spec fn shadowed(b: Seq<Cell>, occ: Bitboard, c: Color, ortho: bool, t: int) -> bool {
    exists|a: int| #[trigger]
        free_slider(b, c, ortho, a) && (if ortho {
            geom::straight(a, t)
        } else {
            geom::diagonal(a, t)
        }) && one_between(occ, a, t)
}

/// The shadows of both sides: what their sliders see past the first man.
#[derive(Clone, Copy, Debug)]
pub struct SpatialMaps {
    pub ortho_xray: [Bitboard; 2],
    pub diag_xray: [Bitboard; 2],
}

impl SpatialMaps {
    /// Whether these are the shadows of position `p`.
    pub open spec fn of(self, p: Position) -> bool {
        &&& forall|c: Color, t: int| #[trigger]
            self.ortho_xray[c.index()].has(t) <==> geom::on_board(t) && shadowed(p.board(), p.occ, c, true, t)
        &&& forall|c: Color, t: int| #[trigger]
            self.diag_xray[c.index()].has(t) <==> geom::on_board(t) && shadowed(p.board(), p.occ, c, false, t)
    }

    /// Finds the shadows of a position, given the pinned men of both sides. A pinned man
    /// casts none.
    pub fn compute(pos: &Position, pinned_w: Bitboard, pinned_b: Bitboard) -> (m: SpatialMaps)
        requires
            pos.mirrored(),
            forall|s: int| #[trigger] pinned_w.has(s) <==> rules::owned(pos.board(), s, Color::White) && pinned(pos.board(), s),
            forall|s: int| #[trigger] pinned_b.has(s) <==> rules::owned(pos.board(), s, Color::Black) && pinned(pos.board(), s),
        ensures
            m.of(*pos),
    {
        let m = SpatialMaps {
            ortho_xray: [
                SpatialMaps::sweep(pos, Color::White, pinned_w, true),
                SpatialMaps::sweep(pos, Color::Black, pinned_b, true),
            ],
            diag_xray: [
                SpatialMaps::sweep(pos, Color::White, pinned_w, false),
                SpatialMaps::sweep(pos, Color::Black, pinned_b, false),
            ],
        };
        proof {
            assert forall|c: Color, t: int| #[trigger]
                m.ortho_xray[c.index()].has(t) <==> geom::on_board(t) && shadowed(pos.board(), pos.occ, c, true, t) by {
                match c {
                    Color::White => {},
                    Color::Black => {},
                }
            }
            assert forall|c: Color, t: int| #[trigger]
                m.diag_xray[c.index()].has(t) <==> geom::on_board(t) && shadowed(pos.board(), pos.occ, c, false, t) by {
                match c {
                    Color::White => {},
                    Color::Black => {},
                }
            }
        }
        m
    }

    fn sweep(pos: &Position, c: Color, held: Bitboard, ortho: bool) -> (r: Bitboard)
        requires
            pos.mirrored(),
            forall|s: int| #[trigger] held.has(s) <==> rules::owned(pos.board(), s, c) && pinned(pos.board(), s),
        ensures
            forall|t: int| #[trigger] r.has(t) <==> geom::on_board(t) && shadowed(pos.board(), pos.occ, c, ortho, t),
    {
        let kind = if ortho {
            PieceType::Rook
        } else {
            PieceType::Bishop
        };
        let movers = pos.pieces(kind, c).or(pos.pieces(PieceType::Queen, c)).and(held.not());
        let ghost b = pos.board();
        let occ = pos.occ;
        proof {
            assert forall|a: int| #[trigger] movers.has(a) <==> free_slider(b, c, ortho, a) by {}
        }
        let mut left = movers;
        let mut r = Bitboard::empty();
        while left.is_not_empty()
            invariant
                forall|a: int| #[trigger] movers.has(a) <==> free_slider(b, c, ortho, a),
                forall|a: int| #[trigger] left.has(a) ==> movers.has(a),
                forall|t: int| #[trigger]
                    r.has(t) <==> geom::on_board(t) && exists|a: int| #[trigger]
                        movers.has(a) && !left.has(a) && (if ortho {
                            geom::straight(a, t)
                        } else {
                            geom::diagonal(a, t)
                        }) && one_between(occ, a, t),
            decreases left.0,
        {
            let ghost left0 = left;
            let ghost r0 = r;
            let sq = left.pop_lsb();
            r = r.or(shadow(sq, occ, ortho));
            proof {
                assert forall|t: int| #[trigger]
                    r.has(t) <==> geom::on_board(t) && exists|a: int| #[trigger]
                        movers.has(a) && !left.has(a) && (if ortho {
                            geom::straight(a, t)
                        } else {
                            geom::diagonal(a, t)
                        }) && one_between(occ, a, t) by {
                    if r0.has(t) {
                        let a = choose|a: int| #[trigger]
                            movers.has(a) && !left0.has(a) && (if ortho {
                                geom::straight(a, t)
                            } else {
                                geom::diagonal(a, t)
                            }) && one_between(occ, a, t);
                        assert(movers.has(a) && !left.has(a));
                    }
                    if r.has(t) && !r0.has(t) {
                        assert(movers.has(sq.at()) && !left.has(sq.at()));
                    }
                    if geom::on_board(t) && exists|a: int| #[trigger]
                        movers.has(a) && !left.has(a) && (if ortho {
                            geom::straight(a, t)
                        } else {
                            geom::diagonal(a, t)
                        }) && one_between(occ, a, t) {
                        let a = choose|a: int| #[trigger]
                            movers.has(a) && !left.has(a) && (if ortho {
                                geom::straight(a, t)
                            } else {
                                geom::diagonal(a, t)
                            }) && one_between(occ, a, t);
                        if a != sq.at() {
                            assert(!left0.has(a));
                        }
                    }
                }
            }
        }
        proof {
            assert forall|t: int| #[trigger] r.has(t) <==> geom::on_board(t) && shadowed(b, occ, c, ortho, t) by {
                if r.has(t) {
                    let a = choose|a: int| #[trigger]
                        movers.has(a) && !left.has(a) && (if ortho {
                            geom::straight(a, t)
                        } else {
                            geom::diagonal(a, t)
                        }) && one_between(occ, a, t);
                    assert(free_slider(b, c, ortho, a));
                }
                if geom::on_board(t) && shadowed(b, occ, c, ortho, t) {
                    let a = choose|a: int| #[trigger]
                        free_slider(b, c, ortho, a) && (if ortho {
                            geom::straight(a, t)
                        } else {
                            geom::diagonal(a, t)
                        }) && one_between(occ, a, t);
                    assert(movers.has(a) && !left.has(a));
                }
            }
        }
        r
    }
}

/// Whether a man of kind `pt`, going from `from` to `to`, comes to attack a dearer enemy
/// man on `t` that it did not attack before.
pub open spec fn fresh_threat(p: Position, pt: PieceType, from: int, to: int, t: int) -> bool {
    let b = p.board();
    &&& rules::owned(b, t, p.stm.other())
    &&& b[t]->0.kind.index() > pt.index()
    &&& rules::strikes(b.update(from, None), p.stm, pt, to, t)
    &&& !rules::strikes(b, p.stm, pt, from, t)
}

/// What a man of kind `pt` and side `c` on `sq` attacks past the men of `occ`.
fn attack_set(pt: PieceType, c: Color, sq: Square, occ: Bitboard) -> (r: Bitboard)
    requires
        sq.ok(),
    ensures
        forall|t: int| #[trigger] r.has(t) <==> geom::on_board(t) && rules::reaches(occ, c, pt, sq.at(), t),
{
    match pt {
        PieceType::Pawn => atk_pawn(sq, c),
        PieceType::Knight => atk_knight(sq),
        PieceType::Bishop => atk_bishop(sq, occ),
        PieceType::Rook => atk_rook(sq, occ),
        PieceType::Queen => atk_rook(sq, occ).or(atk_bishop(sq, occ)),
        PieceType::King => atk_king(sq),
        PieceType::Empty => Bitboard::empty(),
    }
}

/// What the man on `sq` attacks.
fn attack_row(pos: &Position, sq: Square) -> (r: Bitboard)
    requires
        pos.mirrored(),
        sq.ok(),
    ensures
        forall|t: int| #[trigger] r.has(t) <==> geom::on_board(t) && rules::attacks(pos.board(), sq.at(), t),
{
    let occ = pos.occupancy();
    proof {
        rules::lemma_reaches(pos.board(), occ);
    }
    match pos.cells[sq.0 as usize] {
        None => Bitboard::empty(),
        Some(m) => {
            let r = attack_set(m.kind, m.color, sq, occ);
            proof {
                assert forall|t: int| #[trigger] r.has(t) <==> geom::on_board(t) && rules::attacks(pos.board(), sq.at(), t) by {
                    assert(rules::strikes(pos.board(), m.color, m.kind, sq.at(), t) == rules::reaches(
                        occ,
                        m.color,
                        m.kind,
                        sq.at(),
                        t,
                    ));
                }
            }
            r
        },
    }
}

/// Cuts what a man attacks down to what a pin leaves it.
fn cut(m: Man, row: Bitboard, sq: Square, held: Bitboard, ksq: Square, Ghost(b): Ghost<Seq<Cell>>) -> (r: Bitboard)
    requires
        sq.ok(),
        ksq.ok(),
        b[sq.at()] == Some(m),
        rules::owned(b, sq.at(), m.color),
        ksq.at() == position::king_of(b, m.color),
        held.has(sq.at()) == pinned(b, sq.at()),
        forall|t: int| #[trigger] row.has(t) <==> geom::on_board(t) && rules::attacks(b, sq.at(), t),
    ensures
        forall|t: int| #[trigger] r.has(t) <==> geom::on_board(t) && reach(b, sq.at(), t),
{
    match m.kind {
        PieceType::King => Bitboard::empty(),
        PieceType::Empty => Bitboard::empty(),
        PieceType::Pawn => row,
        PieceType::Knight => {
            if held.check_bit(sq) {
                Bitboard::empty()
            } else {
                row
            }
        },
        _ => {
            if held.check_bit(sq) {
                row.and(line_bb(ksq, sq))
            } else {
                row
            }
        },
    }
}

/// What each man attacks, kept by the square it stands on.
#[derive(Clone, Copy, Debug)]
pub struct XorBoard {
    pub cells: [Cell; 64],
    pub rows: [Bitboard; 64],
}

impl XorBoard {
    /// Whether the rows are those of board `b`.
    pub open spec fn of(self, b: Seq<Cell>) -> bool {
        &&& self.cells@ == b
        &&& forall|a: int, t: int|
            geom::on_board(a) ==> (#[trigger] self.rows[a].has(t) <==> geom::on_board(t) && rules::attacks(b, a, t))
    }

    /// The rows of a position.
    pub fn new(pos: &Position) -> (x: XorBoard)
        requires
            pos.mirrored(),
        ensures
            x.of(pos.board()),
    {
        let mut x = XorBoard { cells: pos.cells, rows: [Bitboard(0); 64] };
        let mut s: u8 = 0;
        while s < 64
            invariant
                s <= 64,
                pos.mirrored(),
                x.cells == pos.cells,
                forall|a: int, t: int|
                    0 <= a < s ==> (#[trigger] x.rows[a].has(t) <==> geom::on_board(t) && rules::attacks(pos.board(), a, t)),
            decreases 64 - s,
        {
            x.rows[s as usize] = attack_row(pos, Square(s));
            s = s + 1;
        }
        x
    }

    /// What the men of side `color` bear on inside `area`, summed man by man.
    pub fn mobility(&self, color: Color, held: Bitboard, ksq: Square, area: Bitboard) -> (total: i32)
        requires
            self.of(self.cells@),
            ksq.ok(),
            ksq.at() == position::king_of(self.cells@, color),
            forall|s: int| #[trigger] held.has(s) <==> rules::owned(self.cells@, s, color) && pinned(self.cells@, s),
        ensures
            total == mobility_below(self.cells@, color, area, 64),
            0 <= total <= 4096,
    {
        let ghost b = self.cells@;
        let mut total: i32 = 0;
        let mut s: u8 = 0;
        while s < 64
            invariant
                s <= 64,
                b == self.cells@,
                self.of(b),
                ksq.ok(),
                ksq.at() == position::king_of(b, color),
                forall|s: int| #[trigger] held.has(s) <==> rules::owned(b, s, color) && pinned(b, s),
                total == mobility_below(b, color, area, s as nat),
                0 <= total <= 64 * s,
            decreases 64 - s,
        {
            if let Some(m) = self.cells[s as usize] {
                if m.color == color {
                    let row = self.rows[s as usize];
                    assert(rules::owned(b, s as int, color));
                    let legal = cut(m, row, Square(s), held, ksq, Ghost(b));
                    let inside = legal.and(area);
                    proof {
                        census::lemma_count(inside, |t: int| reach(b, s as int, t) && area.has(t));
                    }
                    total = total + inside.popcount() as i32;
                }
            }
            proof {
                lemma_mobility_bounds(b, color, area, (s + 1) as nat);
            }
            s = s + 1;
        }
        total
    }
}

/// What the men of side `color` bear on inside `area`, summed man by man.
///
/// ORing the men together would lose which man got where: a square that two of them reach
/// counts twice here. The rows answer without a probe per man; the answer is the same.
pub fn piece_mobility(
    pos: &Position,
    rows: Option<&XorBoard>,
    color: Color,
    held: Bitboard,
    ksq: Square,
    area: Bitboard,
) -> (total: i32)
    requires
        pos.mirrored(),
        rows matches Some(x) ==> x.of(pos.board()),
        ksq.ok(),
        ksq.at() == position::king_of(pos.board(), color),
        forall|s: int| #[trigger] held.has(s) <==> rules::owned(pos.board(), s, color) && pinned(pos.board(), s),
    ensures
        total == mobility_below(pos.board(), color, area, 64),
        0 <= total <= 4096,
{
    if let Some(x) = rows {
        return x.mobility(color, held, ksq, area);
    }
    let ghost b = pos.board();
    let mut total: i32 = 0;
    let mut s: u8 = 0;
    while s < 64
        invariant
            s <= 64,
            b == pos.board(),
            pos.mirrored(),
            ksq.ok(),
            ksq.at() == position::king_of(b, color),
            forall|s: int| #[trigger] held.has(s) <==> rules::owned(b, s, color) && pinned(b, s),
            total == mobility_below(b, color, area, s as nat),
            0 <= total <= 64 * s,
        decreases 64 - s,
    {
        if let Some(m) = pos.cells[s as usize] {
            if m.color == color {
                let row = attack_row(pos, Square(s));
                assert(rules::owned(b, s as int, color));
                let legal = cut(m, row, Square(s), held, ksq, Ghost(b));
                let inside = legal.and(area);
                proof {
                    census::lemma_count(inside, |t: int| reach(b, s as int, t) && area.has(t));
                }
                total = total + inside.popcount() as i32;
            }
        }
        proof {
            lemma_mobility_bounds(b, color, area, (s + 1) as nat);
        }
        s = s + 1;
    }
    total
}

/// Everything the men of side `color`, the king apart, bear on.
pub fn side_reach(pos: &Position, color: Color, held: Bitboard, ksq: Square) -> (r: Bitboard)
    requires
        pos.mirrored(),
        ksq.ok(),
        ksq.at() == position::king_of(pos.board(), color),
        forall|s: int| #[trigger] held.has(s) <==> rules::owned(pos.board(), s, color) && pinned(pos.board(), s),
    ensures
        forall|t: int| #[trigger] r.has(t) <==> geom::on_board(t) && borne(pos.board(), color, t),
{
    let ghost b = pos.board();
    let mut r = Bitboard::empty();
    let mut s: u8 = 0;
    while s < 64
        invariant
            s <= 64,
            b == pos.board(),
            pos.mirrored(),
            ksq.ok(),
            ksq.at() == position::king_of(b, color),
            forall|s: int| #[trigger] held.has(s) <==> rules::owned(b, s, color) && pinned(b, s),
            forall|t: int| #[trigger]
                r.has(t) <==> geom::on_board(t) && exists|a: int| a < s && #[trigger] rules::owned(b, a, color) && reach(b, a, t),
        decreases 64 - s,
    {
        let ghost r0 = r;
        if let Some(m) = pos.cells[s as usize] {
            if m.color == color {
                let row = attack_row(pos, Square(s));
                assert(rules::owned(b, s as int, color));
                r = r.or(cut(m, row, Square(s), held, ksq, Ghost(b)));
            }
        }
        proof {
            assert forall|t: int| #[trigger]
                r.has(t) <==> geom::on_board(t) && exists|a: int|
                    a < s + 1 && #[trigger] rules::owned(b, a, color) && reach(b, a, t) by {
                if r0.has(t) {
                    let a = choose|a: int| a < s && #[trigger] rules::owned(b, a, color) && reach(b, a, t);
                    assert(rules::owned(b, a, color));
                }
                if geom::on_board(t) && exists|a: int| a < s + 1 && #[trigger] rules::owned(b, a, color) && reach(b, a, t) {
                    let a = choose|a: int| a < s + 1 && #[trigger] rules::owned(b, a, color) && reach(b, a, t);
                    if a < s {
                        assert(r0.has(t));
                    }
                }
            }
        }
        s = s + 1;
    }
    r
}

/// The man of side `c` on `a` bears on a square of `area`.
pub open spec fn meets(b: Seq<Cell>, c: Color, area: Bitboard, a: int) -> bool {
    rules::owned(b, a, c) && exists|t: int| geom::on_board(t) && #[trigger] area.has(t) && reach(b, a, t)
}

/// The men of side `color`, the king apart, that bear on `area`.
pub fn men_meeting(pos: &Position, color: Color, held: Bitboard, ksq: Square, area: Bitboard) -> (r: Bitboard)
    requires
        pos.mirrored(),
        ksq.ok(),
        ksq.at() == position::king_of(pos.board(), color),
        forall|s: int| #[trigger] held.has(s) <==> rules::owned(pos.board(), s, color) && pinned(pos.board(), s),
    ensures
        forall|a: int| #[trigger] r.has(a) <==> geom::on_board(a) && meets(pos.board(), color, area, a),
{
    let ghost b = pos.board();
    let mut r = Bitboard::empty();
    let mut s: u8 = 0;
    while s < 64
        invariant
            s <= 64,
            b == pos.board(),
            pos.mirrored(),
            ksq.ok(),
            ksq.at() == position::king_of(b, color),
            forall|s: int| #[trigger] held.has(s) <==> rules::owned(b, s, color) && pinned(b, s),
            forall|a: int| #[trigger] r.has(a) <==> geom::on_board(a) && a < s && meets(b, color, area, a),
        decreases 64 - s,
    {
        if let Some(m) = pos.cells[s as usize] {
            if m.color == color {
                let row = attack_row(pos, Square(s));
                assert(rules::owned(b, s as int, color));
                let inside = cut(m, row, Square(s), held, ksq, Ghost(b)).and(area);
                proof {
                    if meets(b, color, area, s as int) {
                        let t = choose|t: int| geom::on_board(t) && #[trigger] area.has(t) && reach(b, s as int, t);
                        assert(inside.has(t));
                    }
                }
                if inside.is_not_empty() {
                    proof {
                        let t = choose|t: int| #[trigger] inside.has(t);
                        assert(area.has(t) && reach(b, s as int, t));
                    }
                    r = r.or(Bitboard::single(Square(s)));
                }
            }
        }
        s = s + 1;
    }
    r
}

impl Position {
    /// Everything side `c` attacks.
    pub fn threats(&self, c: Color) -> (r: Bitboard)
        requires
            self.mirrored(),
        ensures
            forall|t: int| #[trigger] r.has(t) <==> geom::on_board(t) && rules::attacked(self.board(), c, t),
    {
        let ghost b = self.board();
        let men = self.side(c);
        let mut left = men;
        let mut r = Bitboard::empty();
        while left.is_not_empty()
            invariant
                b == self.board(),
                self.mirrored(),
                forall|s: int| #[trigger] men.has(s) <==> rules::owned(b, s, c),
                forall|s: int| #[trigger] left.has(s) ==> men.has(s),
                forall|t: int| #[trigger]
                    r.has(t) <==> geom::on_board(t) && exists|a: int| #[trigger] rules::hits(b, c, a, t) && !left.has(a),
            decreases left.0,
        {
            let ghost left0 = left;
            let ghost r0 = r;
            let sq = left.pop_lsb();
            r = r.or(attack_row(self, sq));
            proof {
                assert(men.has(sq.at()));
                assert forall|t: int| #[trigger]
                    r.has(t) <==> geom::on_board(t) && exists|a: int| #[trigger] rules::hits(b, c, a, t) && !left.has(a) by {
                    if r0.has(t) {
                        let a = choose|a: int| #[trigger] rules::hits(b, c, a, t) && !left0.has(a);
                        assert(rules::hits(b, c, a, t) && !left.has(a));
                    } else if r.has(t) {
                        assert(rules::hits(b, c, sq.at(), t) && !left.has(sq.at()));
                    }
                    if geom::on_board(t) && exists|a: int| #[trigger] rules::hits(b, c, a, t) && !left.has(a) {
                        let a = choose|a: int| #[trigger] rules::hits(b, c, a, t) && !left.has(a);
                        if a != sq.at() {
                            assert(!left0.has(a));
                        }
                    }
                }
            }
        }
        proof {
            assert forall|t: int| #[trigger] r.has(t) <==> geom::on_board(t) && rules::attacked(b, c, t) by {
                if geom::on_board(t) && rules::attacked(b, c, t) {
                    let a = choose|a: int| #[trigger] rules::hits(b, c, a, t);
                    assert(!left.has(a));
                }
            }
        }
        r
    }

    /// The dearer enemy men that a man of kind `pt` comes to attack by going from `from`
    /// to `to`, and did not attack before.
    pub fn new_threats(&self, pt: PieceType, from: Square, to: Square) -> (r: Bitboard)
        requires
            self.mirrored(),
            from.ok(),
            to.ok(),
            rules::occupied(self.board(), from.at()),
            pt != PieceType::Empty,
        ensures
            forall|t: int| #[trigger] r.has(t) <==> fresh_threat(*self, pt, from.at(), to.at(), t),
    {
        let occ = self.occupancy();
        let left = occ.xor(from.bitboard());
        let now = attack_set(pt, self.stm, to, left);
        let before = attack_set(pt, self.stm, from, occ);
        let mut dear = Bitboard::empty();
        let ghost b = self.board();
        let them = self.side(self.stm.opposite());
        let mut i: usize = pt.idx() + 1;
        while i < 6
            invariant
                self.mirrored(),
                b == self.board(),
                pt.index() < i <= 6,
                forall|t: int| #[trigger]
                    dear.has(t) <==> rules::occupied(b, t) && pt.index() < b[t]->0.kind.index() < i,
            decreases 6 - i,
        {
            dear = dear.or(self.role_bb[i]);
            i = i + 1;
        }
        let r = now.and(before.not()).and(them).and(dear);
        proof {
            assert forall|t: int| #[trigger] r.has(t) <==> fresh_threat(*self, pt, from.at(), to.at(), t) by {
                assert forall|s: int| #[trigger] left.has(s) <==> rules::occupied(b.update(from.at(), None), s) by {}
                rules::lemma_reaches(b, occ);
                rules::lemma_reaches(b.update(from.at(), None), left);
                assert(rules::strikes(b, self.stm, pt, from.at(), t) == rules::reaches(occ, self.stm, pt, from.at(), t));
                assert(rules::strikes(b.update(from.at(), None), self.stm, pt, to.at(), t) == rules::reaches(
                    left,
                    self.stm,
                    pt,
                    to.at(),
                    t,
                ));
                if rules::owned(b, t, self.stm.other()) {
                    assert(b[t]->0.kind != PieceType::Empty);
                }
            }
        }
        r
    }

    /// Everything the pawns of side `c` attack.
    pub fn pawn_attacks(&self, c: Color) -> (r: Bitboard)
        requires
            self.mirrored(),
        ensures
            forall|t: int| #[trigger] r.has(t) <==> geom::on_board(t) && pawn_borne(self.board(), c, t),
    {
        let pawns = self.pieces(PieceType::Pawn, c);
        let left = Direction::NorthWest.relative(c);
        let right = Direction::NorthEast.relative(c);
        let r = pawns.shift(left).or(pawns.shift(right));
        proof {
            let b = self.board();
            assert forall|t: int| #[trigger] r.has(t) <==> geom::on_board(t) && pawn_borne(b, c, t) by {
                let x = t - 8 * left.dr() - left.df();
                let y = t - 8 * right.dr() - right.df();
                if r.has(t) {
                    if pawns.shift_has(left, t) {
                        assert(b[x] == rules::man(c, PieceType::Pawn) && geom::pawn_hit(c, x, t));
                    } else {
                        assert(b[y] == rules::man(c, PieceType::Pawn) && geom::pawn_hit(c, y, t));
                    }
                }
                if geom::on_board(t) && pawn_borne(b, c, t) {
                    let a = choose|a: int|
                        geom::on_board(a) && #[trigger] b[a] == rules::man(c, PieceType::Pawn) && geom::pawn_hit(c, a, t);
                    assert(a == x || a == y);
                    assert(pawns.has(a));
                }
            }
        }
        r
    }
}

impl Bitboard {
    /// Whether moving the set one step in direction `d` covers `t`.
    pub open spec fn shift_has(self, d: Direction, t: int) -> bool {
        bitboard::step_back_ok(d, t) && self.has(t - 8 * d.dr() - d.df())
    }
}

/// A pinned knight bears on nothing, a pinned slider only along the line of its pin, a king on
/// nothing here, and a man that is not pinned on all that it attacks.
pub proof fn law_pins_hold_men_back(b: Seq<Cell>, a: int, t: int)
    requires
        rules::placement(b),
        rules::occupied(b, a),
    ensures
        reach(b, a, t) ==> rules::attacks(b, a, t),
        !pinned(b, a) && b[a]->0.kind != PieceType::King ==> reach(b, a, t) == rules::attacks(b, a, t),
        pinned(b, a) && b[a]->0.kind == PieceType::Knight ==> !reach(b, a, t),
        b[a]->0.kind == PieceType::King ==> !reach(b, a, t),
        b[a]->0.kind == PieceType::Pawn ==> reach(b, a, t) == rules::attacks(b, a, t),
        pinned(b, a) && reach(b, a, t) && b[a]->0.kind != PieceType::Pawn ==> geom::on_line(
            position::king_of(b, b[a]->0.color),
            a,
            t,
        ),
{
}

/// A man that is pinned stands between its king and an enemy slider, and no other man does.
pub proof fn law_a_pin_is_a_line_from_a_slider_to_the_king(b: Seq<Cell>, s: int)
    requires
        rules::occupied(b, s),
    ensures
        pinned(b, s) <==> exists|a: int| #[trigger]
            rules::sniper(b, b[s]->0.color.other(), a, position::king_of(b, b[s]->0.color)) && geom::between(
                a,
                position::king_of(b, b[s]->0.color),
                s,
            ) && forall|x: int| geom::between(a, position::king_of(b, b[s]->0.color), x) && x != s ==> (#[trigger] b[x]) is None,
{
}

/// A fresh threat is to a dearer man of the enemy, from the new square and not from the old.
pub proof fn law_threats_are_to_dearer_men(p: Position, pt: PieceType, from: int, to: int, t: int)
    requires
        rules::placement(p.board()),
        fresh_threat(p, pt, from, to, t),
    ensures
        rules::owned(p.board(), t, p.stm.other()),
        pt != PieceType::King && pt != PieceType::Empty,
        p.board()[t]->0.kind != PieceType::Pawn,
        !rules::strikes(p.board(), p.stm, pt, from, t),
        pt == PieceType::Knight ==> geom::knight_hop(to, t),
        pt == PieceType::Pawn ==> geom::pawn_hit(p.stm, to, t),
        pt == PieceType::Queen ==> p.board()[t]->0.kind == PieceType::King,
{
}

/// Sums of what men bear on add up man by man: one more square counts once for each man that
/// bears on it, and a side without men bears on nothing.
pub proof fn law_a_side_without_men_bears_on_nothing(b: Seq<Cell>, c: Color, area: Bitboard, n: nat)
    requires
        forall|s: int| !#[trigger] rules::owned(b, s, c),
    ensures
        mobility_below(b, c, area, n) == 0,
        forall|t: int| !#[trigger] borne(b, c, t),
    decreases n,
{
    if n > 0 {
        law_a_side_without_men_bears_on_nothing(b, c, area, (n - 1) as nat);
    }
}

/// What men bear on counts every man of the side that bears on a square, each with all its squares
/// in the area, and adds up over the board.
pub proof fn law_a_man_alone_bears_on_its_squares(b: Seq<Cell>, c: Color, area: Bitboard, a: int, n: nat)
    requires
        rules::owned(b, a, c),
        forall|s: int| #[trigger] rules::owned(b, s, c) ==> s == a,
    ensures
        n <= a ==> mobility_below(b, c, area, n) == 0,
        n > a ==> mobility_below(b, c, area, n) == census::tally(|t: int| reach(b, a, t) && area.has(t), 64),
    decreases n,
{
    if n > 0 {
        law_a_man_alone_bears_on_its_squares(b, c, area, a, (n - 1) as nat);
        if n - 1 == a {
            assert(rules::owned(b, n - 1, c));
        } else {
            assert(!rules::owned(b, n - 1, c));
        }
    }
}

} // verus!
