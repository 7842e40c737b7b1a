//! Colours, piece types and squares.

use vstd::prelude::*;

use crate::chess::bitboard::Bitboard;

verus! {

/// The two sides.
#[derive(Clone, Copy, Debug, PartialEq, Eq, Structural, Hash)]
pub enum Color {
    White,
    Black,
}

impl Color {
    /// The side across the board.
    pub open spec fn other(self) -> Color {
        match self {
            Color::White => Color::Black,
            Color::Black => Color::White,
        }
    }

    /// Table index: white first.
    pub open spec fn index(self) -> int {
        match self {
            Color::White => 0,
            Color::Black => 1,
        }
    }

    /// The number of ranks a pawn of this side gains with one step.
    pub open spec fn up(self) -> int {
        match self {
            Color::White => 1,
            Color::Black => -1,
        }
    }

    /// The rank pawns of this side start from.
    pub open spec fn home_rank(self) -> int {
        match self {
            Color::White => 1,
            Color::Black => 6,
        }
    }

    /// The rank pawns of this side promote on.
    pub open spec fn last_rank(self) -> int {
        match self {
            Color::White => 7,
            Color::Black => 0,
        }
    }

    /// The side across the board.
    pub fn opposite(self) -> (c: Color)
        ensures
            c == self.other(),
    {
        match self {
            Color::White => Color::Black,
            Color::Black => Color::White,
        }
    }

    /// Table index: white first.
    pub fn idx(self) -> (i: usize)
        ensures
            i == self.index(),
            i < 2,
    {
        match self {
            Color::White => 0,
            Color::Black => 1,
        }
    }
}

/// The six kinds of men, and `Empty` for an empty square.
#[derive(Clone, Copy, Debug, PartialEq, Eq, Structural, Hash)]
pub enum PieceType {
    Pawn,
    Knight,
    Bishop,
    Rook,
    Queen,
    King,
    Empty,
}

impl PieceType {
    /// Table index, pawn first.
    pub open spec fn index(self) -> int {
        match self {
            PieceType::Pawn => 0,
            PieceType::Knight => 1,
            PieceType::Bishop => 2,
            PieceType::Rook => 3,
            PieceType::Queen => 4,
            PieceType::King => 5,
            PieceType::Empty => 6,
        }
    }

    /// Whether men of this kind move along diagonals.
    pub open spec fn is_diag(self) -> bool {
        self == PieceType::Bishop || self == PieceType::Queen
    }

    /// Whether men of this kind move along ranks and files.
    pub open spec fn is_ortho(self) -> bool {
        self == PieceType::Rook || self == PieceType::Queen
    }

    /// Table index, pawn first.
    pub fn idx(self) -> (i: usize)
        ensures
            i == self.index(),
            i < 7,
    {
        match self {
            PieceType::Pawn => 0,
            PieceType::Knight => 1,
            PieceType::Bishop => 2,
            PieceType::Rook => 3,
            PieceType::Queen => 4,
            PieceType::King => 5,
            PieceType::Empty => 6,
        }
    }
}

/// A square, numbered rank by rank from a1 = 0 to h8 = 63.
#[derive(Clone, Copy, Debug, PartialEq, Eq, Structural, Hash)]
pub struct Square(pub u8);

impl Square {
    /// Whether the number is that of a square of the board.
    pub open spec fn ok(self) -> bool {
        self.0 < 64
    }

    /// The square's number.
    pub open spec fn at(self) -> int {
        self.0 as int
    }

    /// The square on file `file` and rank `rank`, both counted from zero.
    pub fn from_coords(file: u8, rank: u8) -> (s: Square)
        requires
            file < 8,
            rank < 8,
        ensures
            s.ok(),
            s.0 == rank * 8 + file,
    {
        Square(rank * 8 + file)
    }

    /// The rank, counted from zero.
    pub fn rank(self) -> (r: u8)
        ensures
            r == self.0 / 8,
            self.ok() ==> r < 8,
    {
        self.0 / 8
    }

    /// The file, counted from zero.
    pub fn file(self) -> (f: u8)
        ensures
            f == self.0 % 8,
            f < 8,
    {
        self.0 % 8
    }

    /// The board with this square alone set.
    pub fn bitboard(self) -> (b: Bitboard)
        requires
            self.ok(),
        ensures
            forall|s: int| #[trigger] b.has(s) <==> s == self.0,
    {
        Bitboard::single(self)
    }
}

} // verus!
