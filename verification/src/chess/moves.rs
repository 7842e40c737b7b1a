//! Moves packed into sixteen bits, and lists of them.

use vstd::prelude::*;

use crate::chess::types::{PieceType, Square};

verus! {

/// A move: origin in the low six bits, destination in the next six, and a flag in the
/// high nibble. Bit 0 of the flag marks a capture and bit 1 a promotion; the two bits
/// above tell the kinds apart. A castling move goes from the king to its own rook.
#[derive(Clone, Copy, Debug, PartialEq, Eq, Structural, Hash)]
pub struct Move(pub u16);

impl Move {
    pub const QUIET: u16 = 0;

    pub const CAPTURE: u16 = 1;

    pub const DOUBLE_PUSH: u16 = 4;

    pub const EP_CAPTURE: u16 = 5;

    pub const CASTLE: u16 = 12;

    pub const PROM_N: u16 = 2;

    pub const PROM_N_CAPTURE: u16 = 3;

    pub const PROM_B: u16 = 6;

    pub const PROM_B_CAPTURE: u16 = 7;

    pub const PROM_R: u16 = 10;

    pub const PROM_R_CAPTURE: u16 = 11;

    pub const PROM_Q: u16 = 14;

    pub const PROM_Q_CAPTURE: u16 = 15;

    /// The origin's number.
    pub open spec fn src(self) -> int {
        self.0 as int % 64
    }

    /// The destination's number.
    pub open spec fn dst(self) -> int {
        (self.0 as int / 64) % 64
    }

    /// The flag nibble.
    pub open spec fn flag(self) -> int {
        self.0 as int / 4096
    }

    pub open spec fn captures(self) -> bool {
        self.flag() % 2 == 1
    }

    pub open spec fn promotes(self) -> bool {
        (self.flag() / 2) % 2 == 1
    }

    pub open spec fn castles(self) -> bool {
        self.flag() == Move::CASTLE
    }

    pub open spec fn takes_ep(self) -> bool {
        self.flag() == Move::EP_CAPTURE
    }

    pub open spec fn double_push(self) -> bool {
        self.flag() == Move::DOUBLE_PUSH
    }

    /// The kind a promotion turns the pawn into.
    pub open spec fn promoted(self) -> PieceType {
        if self.flag() / 4 == 0 {
            PieceType::Knight
        } else if self.flag() / 4 == 1 {
            PieceType::Bishop
        } else if self.flag() / 4 == 2 {
            PieceType::Rook
        } else {
            PieceType::Queen
        }
    }

    /// Whether the flag is one that move generation hands out. Three nibbles are free.
    pub open spec fn canonical(self) -> bool {
        self.flag() != 8 && self.flag() != 9 && self.flag() != 13
    }

    /// Packs a move.
    pub fn new(from: Square, to: Square, flag: u16) -> (m: Move)
        requires
            from.ok(),
            to.ok(),
            flag < 16,
        ensures
            m.src() == from.0,
            m.dst() == to.0,
            m.flag() == flag,
    {
        Move(from.0 as u16 + to.0 as u16 * 64 + flag * 4096)
    }

    /// A move from its sixteen bits.
    pub fn from_u16(raw: u16) -> (m: Move)
        ensures
            m.0 == raw,
    {
        Move(raw)
    }

    /// The sixteen bits of a move.
    pub fn inner(self) -> (raw: u16)
        ensures
            raw == self.0,
    {
        self.0
    }

    /// The move that is no move.
    pub fn null() -> (m: Move)
        ensures
            m.0 == 0,
    {
        Move(0)
    }

    pub fn is_null(self) -> (r: bool)
        ensures
            r == (self.0 == 0),
    {
        self.0 == 0
    }

    pub fn from(self) -> (s: Square)
        ensures
            s.ok(),
            s.0 == self.src(),
    {
        Square((self.0 % 64) as u8)
    }

    pub fn to(self) -> (s: Square)
        ensures
            s.ok(),
            s.0 == self.dst(),
    {
        Square(((self.0 / 64) % 64) as u8)
    }

    pub fn is_capture(self) -> (r: bool)
        ensures
            r == self.captures(),
    {
        (self.0 / 4096) % 2 == 1
    }

    pub fn is_promotion(self) -> (r: bool)
        ensures
            r == self.promotes(),
    {
        ((self.0 / 4096) / 2) % 2 == 1
    }

    pub fn is_castling(self) -> (r: bool)
        ensures
            r == self.castles(),
    {
        self.0 / 4096 == Move::CASTLE
    }

    pub fn is_en_passant(self) -> (r: bool)
        ensures
            r == self.takes_ep(),
    {
        self.0 / 4096 == Move::EP_CAPTURE
    }

    pub fn is_double_push(self) -> (r: bool)
        ensures
            r == self.double_push(),
    {
        self.0 / 4096 == Move::DOUBLE_PUSH
    }

    /// Not a capture.
    pub fn is_quiet(self) -> (r: bool)
        ensures
            r == !self.captures(),
    {
        !self.is_capture()
    }

    /// A capture or a promotion.
    pub fn is_tactical(self) -> (r: bool)
        ensures
            r == (self.captures() || self.promotes()),
    {
        self.is_capture() || self.is_promotion()
    }

    /// Neither a capture nor a promotion: what the quiet histories learn from.
    pub fn is_history_quiet(self) -> (r: bool)
        ensures
            r == (!self.captures() && !self.promotes()),
    {
        !self.is_capture() && !self.is_promotion()
    }

    /// The kind the pawn turns into, if the move promotes.
    pub fn promo(self) -> (p: Option<PieceType>)
        ensures
            p == (if self.promotes() {
                Some(self.promoted())
            } else {
                None
            }),
    {
        if !self.is_promotion() {
            return None;
        }
        let kind: u16 = (self.0 / 4096) / 4;
        if kind == 0 {
            Some(PieceType::Knight)
        } else if kind == 1 {
            Some(PieceType::Bishop)
        } else if kind == 2 {
            Some(PieceType::Rook)
        } else {
            Some(PieceType::Queen)
        }
    }

    /// A move is fixed by its three fields.
    pub proof fn lemma_fields(a: Move, b: Move)
        requires
            a.src() == b.src(),
            a.dst() == b.dst(),
            a.flag() == b.flag(),
        ensures
            a == b,
    {
        assert(a.0 as int == a.flag() * 4096 + a.dst() * 64 + a.src());
        assert(b.0 as int == b.flag() * 4096 + b.dst() * 64 + b.src());
    }
}

/// A list of moves, in the order they were found.
#[derive(Clone, Debug)]
pub struct MoveList {
    pub moves: Vec<Move>,
}

impl View for MoveList {
    type V = Seq<Move>;

    open spec fn view(&self) -> Seq<Move> {
        self.moves@
    }
}

impl MoveList {
    /// An empty list.
    pub fn new() -> (l: MoveList)
        ensures
            l@ == Seq::<Move>::empty(),
    {
        MoveList { moves: Vec::new() }
    }

    /// Appends a move.
    pub fn push(&mut self, mv: Move)
        ensures
            final(self)@ == old(self)@.push(mv),
    {
        self.moves.push(mv);
    }

    /// The number of moves.
    pub fn len(&self) -> (n: usize)
        ensures
            n == self@.len(),
    {
        self.moves.len()
    }

    pub fn is_empty(&self) -> (r: bool)
        ensures
            r == (self@.len() == 0),
    {
        self.moves.len() == 0
    }

    /// The move at place `i`.
    pub fn get(&self, i: usize) -> (m: Move)
        requires
            i < self@.len(),
        ensures
            m == self@[i as int],
    {
        self.moves[i]
    }

    /// Whether the list holds `mv`.
    pub fn contains(&self, mv: Move) -> (r: bool)
        ensures
            r == self@.contains(mv),
    {
        let mut i: usize = 0;
        while i < self.moves.len()
            invariant
                i <= self.moves.len(),
                forall|j: int| 0 <= j < i ==> self@[j] != mv,
            decreases self.moves.len() - i,
        {
            if self.moves[i] == mv {
                return true;
            }
            i = i + 1;
        }
        false
    }
}

} // verus!
