//! The pins of both sides, found once per position.

use vstd::prelude::*;

use crate::chess::bitboard::Bitboard;
use crate::chess::position::{self, Position};
use crate::chess::rules;
use crate::chess::types::{Color, Square};

verus! {

/// Both kings and the men that alone keep an enemy slider off them.
#[derive(Clone, Copy, Debug)]
pub struct Pins {
    pub blocker_bb: [Bitboard; 2],
    pub king_sq: [Square; 2],
}

impl Pins {
    /// Whether these are the pins of position `p`.
    pub open spec fn of(self, p: Position) -> bool {
        &&& forall|c: Color| (#[trigger] self.king_sq[c.index()]).at() == position::king_of(p.board(), c)
        &&& forall|c: Color| (#[trigger] self.king_sq[c.index()]).ok()
        &&& forall|c: Color, s: int| #[trigger]
            self.blocker_bb[c.index()].has(s) <==> rules::blocks(p.board(), c.other(), position::king_of(p.board(), c), s)
    }

    /// Finds the pins of a position.
    pub fn new(p: &Position) -> (pins: Pins)
        requires
            p.mirrored(),
            position::one_king_each(p.board()),
        ensures
            pins.of(*p),
    {
        let w = p.king_square(Color::White);
        let b = p.king_square(Color::Black);
        let pins = Pins { blocker_bb: [p.blockers(Color::White), p.blockers(Color::Black)], king_sq: [w, b] };
        assert forall|c: Color| (#[trigger] pins.king_sq[c.index()]).at() == position::king_of(p.board(), c) by {
            match c {
                Color::White => {},
                Color::Black => {},
            }
        }
        assert forall|c: Color, s: int| #[trigger]
            pins.blocker_bb[c.index()].has(s) <==> rules::blocks(
                p.board(),
                c.other(),
                position::king_of(p.board(), c),
                s,
            ) by {
            match c {
                Color::White => {},
                Color::Black => {},
            }
        }
        pins
    }

    /// The men that alone keep an enemy slider off the king of side `c`.
    pub fn blockers(&self, c: Color) -> (b: Bitboard)
        ensures
            b == self.blocker_bb[c.index()],
    {
        self.blocker_bb[c.idx()]
    }

    /// The king of side `c`.
    pub fn king(&self, c: Color) -> (k: Square)
        ensures
            k == self.king_sq[c.index()],
    {
        self.king_sq[c.idx()]
    }
}

} // verus!
