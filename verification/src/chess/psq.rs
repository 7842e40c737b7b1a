//! Piece-square sums, kept up to date move by move.

use vstd::prelude::*;

use crate::chess::geom;
use crate::chess::rules::{self, Cell, Man};
use crate::chess::types::{Color, PieceType, Square};
use crate::engine::eval_params::{
    EG_BISHOP, EG_KING, EG_KNIGHT, EG_MATERIAL, EG_PAWN, EG_QUEEN, EG_ROOK, MG_BISHOP, MG_KING, MG_KNIGHT, MG_MATERIAL,
    MG_PAWN, MG_QUEEN, MG_ROOK, PHASE,
};

verus! {

/// White-relative middlegame and endgame sums of all men, and the unclamped game phase.
#[derive(Clone, Copy, Debug, PartialEq, Eq, Structural)]
pub struct Accumulator {
    pub mg: i32,
    pub eg: i32,
    pub phase: i32,
}

/// The table slot of square `s` seen from side `c`.
pub open spec fn slot(c: Color, s: int) -> int {
    let r = match c {
        Color::White => 7 - geom::rank(s),
        Color::Black => geom::rank(s),
    };
    let f = if geom::file(s) < 4 {
        geom::file(s)
    } else {
        7 - geom::file(s)
    };
    r * 4 + f
}

/// Middlegame worth of a man of kind `pt` on table slot `i`.
pub open spec fn mg_worth(pt: PieceType, i: int) -> int {
    match pt {
        PieceType::Pawn => MG_MATERIAL[0] + MG_PAWN[i],
        PieceType::Knight => MG_MATERIAL[1] + MG_KNIGHT[i],
        PieceType::Bishop => MG_MATERIAL[2] + MG_BISHOP[i],
        PieceType::Rook => MG_MATERIAL[3] + MG_ROOK[i],
        PieceType::Queen => MG_MATERIAL[4] + MG_QUEEN[i],
        PieceType::King => MG_MATERIAL[5] + MG_KING[i],
        PieceType::Empty => 0,
    }
}

/// Endgame worth of a man of kind `pt` on table slot `i`.
pub open spec fn eg_worth(pt: PieceType, i: int) -> int {
    match pt {
        PieceType::Pawn => EG_MATERIAL[0] + EG_PAWN[i],
        PieceType::Knight => EG_MATERIAL[1] + EG_KNIGHT[i],
        PieceType::Bishop => EG_MATERIAL[2] + EG_BISHOP[i],
        PieceType::Rook => EG_MATERIAL[3] + EG_ROOK[i],
        PieceType::Queen => EG_MATERIAL[4] + EG_QUEEN[i],
        PieceType::King => EG_MATERIAL[5] + EG_KING[i],
        PieceType::Empty => 0,
    }
}

/// What a man of kind `pt` adds to the phase.
pub open spec fn phase_worth(pt: PieceType) -> int {
    match pt {
        PieceType::Empty => 0,
        _ => PHASE[pt.index()] as int,
    }
}

/// The three lanes a sum is kept in.
#[derive(Clone, Copy, Debug, PartialEq, Eq, Structural)]
pub enum Lane {
    Mg,
    Eg,
    Phase,
}

/// What the cell on `s` adds to lane `l`.
pub open spec fn cell_worth(l: Lane, cell: Cell, s: int) -> int {
    match cell {
        None => 0,
        Some(m) => match l {
            Lane::Mg => match m.color {
                Color::White => mg_worth(m.kind, slot(m.color, s)),
                Color::Black => -mg_worth(m.kind, slot(m.color, s)),
            },
            Lane::Eg => match m.color {
                Color::White => eg_worth(m.kind, slot(m.color, s)),
                Color::Black => -eg_worth(m.kind, slot(m.color, s)),
            },
            Lane::Phase => phase_worth(m.kind),
        },
    }
}

/// The sum of lane `l` over the first `n` squares.
pub open spec fn sum_below(l: Lane, b: Seq<Cell>, n: nat) -> int
    decreases n,
{
    if n == 0 {
        0
    } else {
        sum_below(l, b, (n - 1) as nat) + cell_worth(l, b[n - 1], n - 1)
    }
}

/// The sum of lane `l` over a placement.
pub open spec fn sum(l: Lane, b: Seq<Cell>) -> int {
    sum_below(l, b, 64)
}

impl Accumulator {
    /// Whether the lanes hold the sums of placement `b`.
    pub open spec fn of(self, b: Seq<Cell>) -> bool {
        &&& self.mg == sum(Lane::Mg, b)
        &&& self.eg == sum(Lane::Eg, b)
        &&& self.phase == sum(Lane::Phase, b)
    }
}

/// No cell is worth more than two sixteen-bit weights.
pub proof fn lemma_cell_bound(l: Lane, cell: Cell, s: int)
    requires
        geom::on_board(s),
    ensures
        -65536 <= cell_worth(l, cell, s) <= 65536,
{
}

/// Sums stay far from the ends of a machine word.
pub proof fn lemma_sum_bound(l: Lane, b: Seq<Cell>, n: nat)
    requires
        b.len() == 64,
        n <= 64,
    ensures
        -65536 * n <= sum_below(l, b, n) <= 65536 * n,
    decreases n,
{
    if n > 0 {
        lemma_sum_bound(l, b, (n - 1) as nat);
        lemma_cell_bound(l, b[n - 1], n - 1);
    }
}

/// Changing one cell changes a sum by the worth of the old and the new cell.
pub proof fn lemma_sum_update(l: Lane, b: Seq<Cell>, s: int, x: Cell, n: nat)
    requires
        b.len() == 64,
        0 <= s < 64,
        n <= 64,
    ensures
        sum_below(l, b.update(s, x), n) == sum_below(l, b, n) + (if s < n {
            cell_worth(l, x, s) - cell_worth(l, b[s], s)
        } else {
            0
        }),
    decreases n,
{
    if n > 0 {
        lemma_sum_update(l, b, s, x, (n - 1) as nat);
    }
}

/// The table slot of a square.
fn slot_of(c: Color, sq: Square) -> (i: usize)
    requires
        sq.ok(),
    ensures
        i == slot(c, sq.at()),
        i < 32,
{
    let r: u8 = match c {
        Color::White => 7 - sq.rank(),
        Color::Black => sq.rank(),
    };
    let f: u8 = if sq.file() < 4 {
        sq.file()
    } else {
        7 - sq.file()
    };
    (r * 4 + f) as usize
}

/// What a man on `sq` adds to the three lanes.
pub fn worth_of(m: Man, sq: Square) -> (a: Accumulator)
    requires
        sq.ok(),
    ensures
        a.mg == cell_worth(Lane::Mg, Some(m), sq.at()),
        a.eg == cell_worth(Lane::Eg, Some(m), sq.at()),
        a.phase == cell_worth(Lane::Phase, Some(m), sq.at()),
{
    let i: usize = slot_of(m.color, sq);
    let (mg, eg): (i32, i32) = match m.kind {
        PieceType::Pawn => (MG_MATERIAL[0] as i32 + MG_PAWN[i] as i32, EG_MATERIAL[0] as i32 + EG_PAWN[i] as i32),
        PieceType::Knight => (MG_MATERIAL[1] as i32 + MG_KNIGHT[i] as i32, EG_MATERIAL[1] as i32 + EG_KNIGHT[i] as i32),
        PieceType::Bishop => (MG_MATERIAL[2] as i32 + MG_BISHOP[i] as i32, EG_MATERIAL[2] as i32 + EG_BISHOP[i] as i32),
        PieceType::Rook => (MG_MATERIAL[3] as i32 + MG_ROOK[i] as i32, EG_MATERIAL[3] as i32 + EG_ROOK[i] as i32),
        PieceType::Queen => (MG_MATERIAL[4] as i32 + MG_QUEEN[i] as i32, EG_MATERIAL[4] as i32 + EG_QUEEN[i] as i32),
        PieceType::King => (MG_MATERIAL[5] as i32 + MG_KING[i] as i32, EG_MATERIAL[5] as i32 + EG_KING[i] as i32),
        PieceType::Empty => (0, 0),
    };
    let phase: i32 = match m.kind {
        PieceType::Empty => 0,
        _ => PHASE[m.kind.idx()] as i32,
    };
    match m.color {
        Color::White => Accumulator { mg, eg, phase },
        Color::Black => Accumulator { mg: -mg, eg: -eg, phase },
    }
}

/// The sums of a placement from scratch.
pub fn accumulate(cells: &[Cell; 64]) -> (a: Accumulator)
    ensures
        a.of(cells@),
{
    let mut acc = Accumulator { mg: 0, eg: 0, phase: 0 };
    let mut s: usize = 0;
    while s < 64
        invariant
            s <= 64,
            acc.mg == sum_below(Lane::Mg, cells@, s as nat),
            acc.eg == sum_below(Lane::Eg, cells@, s as nat),
            acc.phase == sum_below(Lane::Phase, cells@, s as nat),
        decreases 64 - s,
    {
        proof {
            lemma_sum_bound(Lane::Mg, cells@, s as nat);
            lemma_sum_bound(Lane::Eg, cells@, s as nat);
            lemma_sum_bound(Lane::Phase, cells@, s as nat);
            lemma_cell_bound(Lane::Mg, cells@[s as int], s as int);
            lemma_cell_bound(Lane::Eg, cells@[s as int], s as int);
            lemma_cell_bound(Lane::Phase, cells@[s as int], s as int);
        }
        if let Some(m) = cells[s] {
            let w = worth_of(m, Square(s as u8));
            acc = Accumulator { mg: acc.mg + w.mg, eg: acc.eg + w.eg, phase: acc.phase + w.phase };
        }
        s = s + 1;
    }
    acc
}

/// The tables run from the eighth rank down to the first as the owner sees the board, and from the
/// edge to the middle: a white man on rank `r` and file `f`, both counted from zero, has the entry
/// of row `7 - r`; a black man there that of row `r`.
pub proof fn law_tables_are_read_from_the_owners_side(m: Man, r: int, f: int)
    requires
        0 <= r < 8,
        0 <= f < 4,
        m.kind != PieceType::Empty,
    ensures
        m.color == Color::White ==> {
            let e = (7 - r) * 4 + f;
            &&& cell_worth(Lane::Mg, Some(m), 8 * r + f) == mg_worth(m.kind, e)
            &&& cell_worth(Lane::Mg, Some(m), 8 * r + 7 - f) == mg_worth(m.kind, e)
            &&& cell_worth(Lane::Eg, Some(m), 8 * r + f) == eg_worth(m.kind, e)
            &&& cell_worth(Lane::Eg, Some(m), 8 * r + 7 - f) == eg_worth(m.kind, e)
        },
        m.color == Color::Black ==> {
            let e = r * 4 + f;
            &&& cell_worth(Lane::Mg, Some(m), 8 * r + f) == -mg_worth(m.kind, e)
            &&& cell_worth(Lane::Mg, Some(m), 8 * r + 7 - f) == -mg_worth(m.kind, e)
            &&& cell_worth(Lane::Eg, Some(m), 8 * r + f) == -eg_worth(m.kind, e)
            &&& cell_worth(Lane::Eg, Some(m), 8 * r + 7 - f) == -eg_worth(m.kind, e)
        },
{
}

/// A worth is the material of the kind and the entry of its own table.
pub proof fn law_a_worth_is_material_and_an_entry(i: int)
    requires
        0 <= i < 32,
    ensures
        mg_worth(PieceType::Pawn, i) - MG_PAWN[i] == 92 && eg_worth(PieceType::Pawn, i) - EG_PAWN[i] == 163,
        mg_worth(PieceType::Knight, i) - MG_KNIGHT[i] == 360 && eg_worth(PieceType::Knight, i) - EG_KNIGHT[i] == 502,
        mg_worth(PieceType::Bishop, i) - MG_BISHOP[i] == 371 && eg_worth(PieceType::Bishop, i) - EG_BISHOP[i] == 534,
        mg_worth(PieceType::Rook, i) - MG_ROOK[i] == 458 && eg_worth(PieceType::Rook, i) - EG_ROOK[i] == 947,
        mg_worth(PieceType::Queen, i) - MG_QUEEN[i] == 728 && eg_worth(PieceType::Queen, i) - EG_QUEEN[i] == 1860,
        mg_worth(PieceType::King, i) == MG_KING[i] && eg_worth(PieceType::King, i) == EG_KING[i],
{
}

/// In the endgame a pawn one step from promoting is worth more than it is anywhere else on its
/// file, for either side, and a pawn at home on a file adds no more than the material of a pawn.
pub proof fn law_a_pawn_about_to_promote_is_worth_most(f: int, r: int)
    requires
        0 <= f < 8,
        1 <= r < 6,
    ensures
        cell_worth(Lane::Eg, rules::man(Color::White, PieceType::Pawn), 48 + f) > cell_worth(
            Lane::Eg,
            rules::man(Color::White, PieceType::Pawn),
            8 * r + f,
        ),
        -cell_worth(Lane::Eg, rules::man(Color::Black, PieceType::Pawn), 8 + f) > -cell_worth(
            Lane::Eg,
            rules::man(Color::Black, PieceType::Pawn),
            8 * (7 - r) + f,
        ),
        cell_worth(Lane::Eg, rules::man(Color::White, PieceType::Pawn), 8 + f) < 163,
        -cell_worth(Lane::Eg, rules::man(Color::Black, PieceType::Pawn), 48 + f) < 163,
{
}

/// In the middlegame a king is better off on its own first rank than on any rank from the third
/// to the fifth, in the endgame better off in the middle of the board than on its first rank.
pub proof fn law_a_king_hides_and_comes_out(f: int, r: int)
    requires
        0 <= f < 8,
        2 <= r < 5,
    ensures
        cell_worth(Lane::Mg, rules::man(Color::White, PieceType::King), f) > cell_worth(
            Lane::Mg,
            rules::man(Color::White, PieceType::King),
            8 * r + f,
        ),
        -cell_worth(Lane::Mg, rules::man(Color::Black, PieceType::King), 56 + f) > -cell_worth(
            Lane::Mg,
            rules::man(Color::Black, PieceType::King),
            8 * (7 - r) + f,
        ),
        cell_worth(Lane::Eg, rules::man(Color::White, PieceType::King), f) < cell_worth(
            Lane::Eg,
            rules::man(Color::White, PieceType::King),
            8 * r + f,
        ),
        -cell_worth(Lane::Eg, rules::man(Color::Black, PieceType::King), 56 + f) < -cell_worth(
            Lane::Eg,
            rules::man(Color::Black, PieceType::King),
            8 * (7 - r) + f,
        ),
{
}

/// The same man is worth as much to black as to white on the square across the board.
pub proof fn law_the_board_looks_alike_from_both_sides(pt: PieceType, s: int, t: int)
    requires
        0 <= s < 64,
        0 <= t < 64,
        s % 8 == t % 8,
        s / 8 + t / 8 == 7,
    ensures
        cell_worth(Lane::Mg, rules::man(Color::White, pt), s) == -cell_worth(Lane::Mg, rules::man(Color::Black, pt), t),
        cell_worth(Lane::Eg, rules::man(Color::White, pt), s) == -cell_worth(Lane::Eg, rules::man(Color::Black, pt), t),
        cell_worth(Lane::Phase, rules::man(Color::White, pt), s) == cell_worth(Lane::Phase, rules::man(Color::Black, pt), t),
{
}

/// The phase counts a queen four, a rook two and a knight or bishop one, of either side; pawns and
/// kings do not count. An empty square adds nothing to any sum.
pub proof fn law_the_phase_counts_pieces(c: Color, s: int, l: Lane)
    ensures
        cell_worth(Lane::Phase, rules::man(c, PieceType::Queen), s) == 4,
        cell_worth(Lane::Phase, rules::man(c, PieceType::Rook), s) == 2,
        cell_worth(Lane::Phase, rules::man(c, PieceType::Bishop), s) == 1,
        cell_worth(Lane::Phase, rules::man(c, PieceType::Knight), s) == 1,
        cell_worth(Lane::Phase, rules::man(c, PieceType::Pawn), s) == 0,
        cell_worth(Lane::Phase, rules::man(c, PieceType::King), s) == 0,
        cell_worth(l, None, s) == 0,
{
}

/// Putting a man on an empty square adds its worth there to the sums of the board, and nothing
/// else.
pub proof fn law_a_man_adds_its_worth(l: Lane, b: Seq<Cell>, s: int, m: Man)
    requires
        b.len() == 64,
        0 <= s < 64,
        b[s] is None,
    ensures
        sum(l, b.update(s, Some(m))) - sum(l, b) == cell_worth(l, Some(m), s),
{
    lemma_sum_update(l, b, s, Some(m), 64);
}

} // verus!
