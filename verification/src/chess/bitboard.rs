//! Sets of squares packed into one machine word.

use vstd::prelude::*;

use crate::chess::types::{Color, Square};

verus! {

/// A set of squares: bit `s` stands for square `s`.
#[derive(Clone, Copy, Debug, PartialEq, Eq, Structural, Hash)]
pub struct Bitboard(pub u64);

/// Whether bit `s` of `x` is set.
pub open spec fn bit(x: u64, s: u64) -> bool {
    (x >> s) & 1 == 1
}

/// The number of set bits among the lowest `n`.
pub open spec fn ones_below(x: u64, n: nat) -> nat
    decreases n,
{
    if n == 0 {
        0
    } else {
        ones_below(x, (n - 1) as nat) + (if bit(x, (n - 1) as u64) {
            1nat
        } else {
            0nat
        })
    }
}

/// `u64::count_ones`: the number of ones in the binary representation.
pub assume_specification[ u64::count_ones ](x: u64) -> (r: u32)
    ensures
        r == ones_below(x, 64),
;

impl Bitboard {
    /// Whether square `s` belongs to the set.
    #[verifier::opaque]
    pub open spec fn has(self, s: int) -> bool {
        0 <= s < 64 && bit(self.0, s as u64)
    }

    /// How many squares belong to the set.
    pub open spec fn count(self) -> nat {
        ones_below(self.0, 64)
    }

    /// Two sets with the same squares are the same word.
    pub proof fn lemma_ext(a: Bitboard, b: Bitboard)
        requires
            forall|s: int| 0 <= s < 64 ==> #[trigger] a.has(s) == b.has(s),
        ensures
            a == b,
    {
        let x = a.0;
        let y = b.0;
        assert forall|s: u64| s < 64 implies #[trigger] ((x >> s) & 1) == ((y >> s) & 1) by {
            reveal(Bitboard::has);
            assert(a.has(s as int) == b.has(s as int));
            assert((x >> s) & 1 == 0 || (x >> s) & 1 == 1) by (bit_vector);
            assert((y >> s) & 1 == 0 || (y >> s) & 1 == 1) by (bit_vector);
        }
        lemma_word_ext(x, y);
    }

    /// A non-empty set has a square.
    pub proof fn lemma_nonempty(self) -> (s: int)
        requires
            self.0 != 0,
        ensures
            0 <= s < 64,
            self.has(s),
    {
        if forall|s: int| 0 <= s < 64 ==> !#[trigger] self.has(s) {
            assert forall|s: int| 0 <= s < 64 implies #[trigger] self.has(s) == Bitboard(0).has(s) by {
                lemma_zero(s);
            }
            Bitboard::lemma_ext(self, Bitboard(0));
        }
        choose|s: int| 0 <= s < 64 && #[trigger] self.has(s)
    }

    /// The empty set.
    pub fn empty() -> (b: Bitboard)
        ensures
            b.0 == 0,
            forall|s: int| !#[trigger] b.has(s),
    {
        proof {
            assert forall|s: int| !#[trigger] Bitboard(0).has(s) by {
                lemma_zero(s);
            }
        }
        Bitboard(0)
    }

    /// The set of one square.
    pub fn single(sq: Square) -> (b: Bitboard)
        requires
            sq.ok(),
        ensures
            b.0 == 1u64 << sq.0,
            forall|s: int| #[trigger] b.has(s) <==> s == sq.0,
    {
        let x: u64 = 1u64 << sq.0;
        proof {
            let k = sq.0 as u64;
            assert forall|s: int| #[trigger] Bitboard(x).has(s) <==> s == sq.0 by {
                reveal(Bitboard::has);
                if 0 <= s < 64 {
                    let t = s as u64;
                    assert(k < 64 && t < 64 ==> (((1u64 << k) >> t) & 1 == 1) == (k == t)) by (bit_vector);
                    assert(1u64 << sq.0 == 1u64 << k);
                }
            }
        }
        Bitboard(x)
    }

    /// Squares of both sets.
    pub fn and(self, o: Bitboard) -> (b: Bitboard)
        ensures
            b.0 == self.0 & o.0,
            forall|s: int| #[trigger] b.has(s) <==> self.has(s) && o.has(s),
    {
        proof {
            lemma_and(self.0, o.0);
        }
        Bitboard(self.0 & o.0)
    }

    /// Squares of either set.
    pub fn or(self, o: Bitboard) -> (b: Bitboard)
        ensures
            b.0 == self.0 | o.0,
            forall|s: int| #[trigger] b.has(s) <==> self.has(s) || o.has(s),
    {
        proof {
            lemma_or(self.0, o.0);
        }
        Bitboard(self.0 | o.0)
    }

    /// Squares of exactly one of the sets.
    pub fn xor(self, o: Bitboard) -> (b: Bitboard)
        ensures
            b.0 == self.0 ^ o.0,
            forall|s: int| #[trigger] b.has(s) <==> self.has(s) != o.has(s),
    {
        proof {
            lemma_xor(self.0, o.0);
        }
        Bitboard(self.0 ^ o.0)
    }

    /// Squares outside the set.
    pub fn not(self) -> (b: Bitboard)
        ensures
            b.0 == !self.0,
            forall|s: int| #[trigger] b.has(s) <==> 0 <= s < 64 && !self.has(s),
    {
        proof {
            lemma_not(self.0);
        }
        Bitboard(!self.0)
    }

    /// Whether no square belongs to the set.
    pub fn is_empty(self) -> (r: bool)
        ensures
            r <==> self.0 == 0,
            r <==> forall|s: int| !#[trigger] self.has(s),
    {
        proof {
            if self.0 != 0 {
                let s = self.lemma_nonempty();
            } else {
                assert forall|s: int| !#[trigger] self.has(s) by {
                    lemma_zero(s);
                }
            }
        }
        self.0 == 0
    }

    /// Whether some square belongs to the set.
    pub fn is_not_empty(self) -> (r: bool)
        ensures
            r <==> self.0 != 0,
            r <==> exists|s: int| #[trigger] self.has(s),
    {
        !self.is_empty()
    }

    /// Whether square `sq` belongs to the set.
    pub fn check_bit(self, sq: Square) -> (r: bool)
        requires
            sq.ok(),
        ensures
            r == self.has(sq.at()),
    {
        proof {
            reveal(Bitboard::has);
            let x = self.0;
            let k = sq.0 as u64;
            assert(self.0 >> sq.0 == x >> k);
        }
        (self.0 >> sq.0) & 1 == 1
    }

    /// The number of squares in the set.
    pub fn popcount(self) -> (n: u32)
        ensures
            n == self.count(),
            n <= 64,
    {
        proof {
            lemma_ones_bound(self.0, 64);
        }
        self.0.count_ones()
    }

    /// The lowest square of a non-empty set.
    pub fn lsb(self) -> (sq: Square)
        requires
            self.0 != 0,
        ensures
            sq.ok(),
            self.has(sq.at()),
            forall|s: int| #[trigger] self.has(s) ==> s >= sq.0,
    {
        let x: u64 = self.0;
        let n: u32 = x.trailing_zeros();
        proof {
            vstd::std_specs::bits::axiom_u64_trailing_zeros(x);
            reveal(Bitboard::has);
            assert forall|s: int| #[trigger] self.has(s) implies s >= n by {
                if s < n {
                    let j = s as u64;
                    assert((x >> j) & 1u64 == 0u64);
                }
            }
        }
        Square(n as u8)
    }

    /// Takes the lowest square out of a non-empty set and returns it.
    pub fn pop_lsb(&mut self) -> (sq: Square)
        requires
            old(self).0 != 0,
        ensures
            sq.ok(),
            old(self).has(sq.at()),
            forall|s: int| #[trigger] old(self).has(s) ==> s >= sq.0,
            forall|s: int| #[trigger] final(self).has(s) <==> old(self).has(s) && s != sq.0,
            final(self).0 < old(self).0,
    {
        let sq = self.lsb();
        let x: u64 = self.0;
        let y: u64 = x & (x - 1) as u64;
        proof {
            let k = sq.0 as u64;
            assert(y < x) by {
                let z = (x - 1) as u64;
                assert(x != 0 && z == x - 1 ==> x & z < x) by (bit_vector);
            }
            assert forall|s: int| #[trigger] Bitboard(y).has(s) <==> self.has(s) && s != sq.0 by {
                reveal(Bitboard::has);
                if 0 <= s < 64 {
                    let t = s as u64;
                    assert forall|j: u64| j < k implies #[trigger] (x >> j) & 1 == 0 by {
                        assert(!self.has(j as int));
                        assert((x >> j) & 1 == 0 || (x >> j) & 1 == 1) by (bit_vector);
                    }
                    lemma_pop(x, k, t);
                }
            }
        }
        *self = Bitboard(y);
        sq
    }

    /// Whether the set has at least two squares.
    pub fn more_than_one(self) -> (r: bool)
        ensures
            r <==> exists|s: int, t: int| #[trigger] self.has(s) && #[trigger] self.has(t) && s != t,
    {
        if self.is_empty() {
            return false;
        }
        let mut rest = self;
        let low = rest.pop_lsb();
        let r = rest.is_not_empty();
        proof {
            if r {
                let s = rest.lemma_nonempty();
                assert(self.has(s) && self.has(low.at()) && s != low.at());
            } else {
                assert forall|s: int, t: int| #[trigger] self.has(s) && #[trigger] self.has(t) implies s == t by {
                    assert(!rest.has(s));
                    assert(!rest.has(t));
                }
            }
        }
        r
    }
}

/// A set holds squares of the board only.
pub proof fn lemma_on_board(b: Bitboard)
    ensures
        forall|s: int| #[trigger] b.has(s) ==> 0 <= s < 64,
{
    reveal(Bitboard::has);
}

/// The empty word has no square.
pub proof fn lemma_zero(s: int)
    ensures
        !Bitboard(0).has(s),
{
    reveal(Bitboard::has);
    if 0 <= s < 64 {
        let t = s as u64;
        assert((0u64 >> t) & 1 == 0) by (bit_vector);
    }
}

proof fn lemma_word_ext(x: u64, y: u64)
    requires
        forall|s: u64| s < 64 ==> #[trigger] ((x >> s) & 1) == ((y >> s) & 1),
    ensures
        x == y,
{
    let d = x ^ y;
    vstd::std_specs::bits::axiom_u64_trailing_zeros(d);
    if d != 0 {
        let t = vstd::std_specs::bits::u64_trailing_zeros(d) as u64;
        assert(d == x ^ y && (d >> t) & 1 == 1 ==> ((x >> t) & 1) != ((y >> t) & 1)) by (bit_vector);
    }
    assert(x ^ y == 0 ==> x == y) by (bit_vector);
}

proof fn lemma_pop(x: u64, k: u64, t: u64)
    requires
        k < 64,
        t < 64,
        x != 0,
        (x >> k) & 1 == 1,
        forall|j: u64| j < k ==> #[trigger] (x >> j) & 1 == 0,
    ensures
        (((x & (x - 1) as u64) >> t) & 1 == 1) <==> ((x >> t) & 1 == 1 && t != k),
{
    let z = (x - 1) as u64;
    let m = ((1u64 << k) - 1) as u64;
    assert(m == (1u64 << k) - 1) by {
        assert(k < 64 ==> 1u64 << k >= 1) by (bit_vector);
    }
    if x & m != 0 {
        let s = Bitboard(x & m).lemma_nonempty();
        reveal(Bitboard::has);
        let j = s as u64;
        assert(k < 64 && j < 64 && m == (1u64 << k) - 1 && ((x & m) >> j) & 1 == 1 ==> j < k && (x >> j) & 1 == 1)
            by (bit_vector);
    }
    assert(x != 0 && z == x - 1 && k < 64 && t < 64 && (x >> k) & 1 == 1 && m == (1u64 << k) - 1 && x & m == 0 ==> ((((
    x & z) >> t) & 1 == 1) <==> ((x >> t) & 1 == 1 && t != k))) by (bit_vector);
}

pub proof fn lemma_and(x: u64, y: u64)
    ensures
        forall|s: int| #[trigger] Bitboard(x & y).has(s) <==> Bitboard(x).has(s) && Bitboard(y).has(s),
{
    reveal(Bitboard::has);
    assert forall|s: int| #[trigger] Bitboard(x & y).has(s) <==> Bitboard(x).has(s) && Bitboard(y).has(s) by {
        if 0 <= s < 64 {
            let t = s as u64;
            assert((((x & y) >> t) & 1 == 1) <==> ((x >> t) & 1 == 1 && (y >> t) & 1 == 1)) by (bit_vector);
        }
    }
}

pub proof fn lemma_or(x: u64, y: u64)
    ensures
        forall|s: int| #[trigger] Bitboard(x | y).has(s) <==> Bitboard(x).has(s) || Bitboard(y).has(s),
{
    reveal(Bitboard::has);
    assert forall|s: int| #[trigger] Bitboard(x | y).has(s) <==> Bitboard(x).has(s) || Bitboard(y).has(s) by {
        if 0 <= s < 64 {
            let t = s as u64;
            assert((((x | y) >> t) & 1 == 1) <==> ((x >> t) & 1 == 1 || (y >> t) & 1 == 1)) by (bit_vector);
        }
    }
}

pub proof fn lemma_xor(x: u64, y: u64)
    ensures
        forall|s: int| #[trigger] Bitboard(x ^ y).has(s) <==> Bitboard(x).has(s) != Bitboard(y).has(s),
{
    reveal(Bitboard::has);
    assert forall|s: int| #[trigger] Bitboard(x ^ y).has(s) <==> Bitboard(x).has(s) != Bitboard(y).has(s) by {
        if 0 <= s < 64 {
            let t = s as u64;
            assert((((x ^ y) >> t) & 1 == 1) <==> (((x >> t) & 1 == 1) != ((y >> t) & 1 == 1))) by (bit_vector);
        }
    }
}

pub proof fn lemma_not(x: u64)
    ensures
        forall|s: int| #[trigger] Bitboard(!x).has(s) <==> 0 <= s < 64 && !Bitboard(x).has(s),
{
    reveal(Bitboard::has);
    assert forall|s: int| #[trigger] Bitboard(!x).has(s) <==> 0 <= s < 64 && !Bitboard(x).has(s) by {
        if 0 <= s < 64 {
            let t = s as u64;
            assert(t < 64 ==> (((!x >> t) & 1 == 1) <==> !((x >> t) & 1 == 1))) by (bit_vector);
        }
    }
}

proof fn lemma_rank_words(t: u64)
    by (bit_vector)
    requires
        t < 64,
    ensures
        ((0xff00_0000_0000_0000u64 >> t) & 1 == 1) <==> t / 8 == 7,
        ((0x0000_0000_0000_00ffu64 >> t) & 1 == 1) <==> t / 8 == 0,
        ((0x0000_0000_00ff_0000u64 >> t) & 1 == 1) <==> t / 8 == 2,
        ((0x0000_ff00_0000_0000u64 >> t) & 1 == 1) <==> t / 8 == 5,
{
}

/// The words of the first, third, sixth and eighth rank.
pub proof fn lemma_ranks()
    ensures
        forall|t: int| #[trigger] Bitboard(0xff00_0000_0000_0000).has(t) <==> 0 <= t < 64 && t / 8 == 7,
        forall|t: int| #[trigger] Bitboard(0x0000_0000_0000_00ff).has(t) <==> 0 <= t < 64 && t / 8 == 0,
        forall|t: int| #[trigger] Bitboard(0x0000_0000_00ff_0000).has(t) <==> 0 <= t < 64 && t / 8 == 2,
        forall|t: int| #[trigger] Bitboard(0x0000_ff00_0000_0000).has(t) <==> 0 <= t < 64 && t / 8 == 5,
{
    reveal(Bitboard::has);
    assert forall|t: int| #[trigger] Bitboard(0xff00_0000_0000_0000).has(t) <==> 0 <= t < 64 && t / 8 == 7 by {
        if 0 <= t < 64 {
            lemma_rank_words(t as u64);
        }
    }
    assert forall|t: int| #[trigger] Bitboard(0x0000_0000_0000_00ff).has(t) <==> 0 <= t < 64 && t / 8 == 0 by {
        if 0 <= t < 64 {
            lemma_rank_words(t as u64);
        }
    }
    assert forall|t: int| #[trigger] Bitboard(0x0000_0000_00ff_0000).has(t) <==> 0 <= t < 64 && t / 8 == 2 by {
        if 0 <= t < 64 {
            lemma_rank_words(t as u64);
        }
    }
    assert forall|t: int| #[trigger] Bitboard(0x0000_ff00_0000_0000).has(t) <==> 0 <= t < 64 && t / 8 == 5 by {
        if 0 <= t < 64 {
            lemma_rank_words(t as u64);
        }
    }
}

/// At most `n` of the lowest `n` bits are set.
pub proof fn lemma_ones_bound(x: u64, n: nat)
    ensures
        ones_below(x, n) <= n,
    decreases n,
{
    if n > 0 {
        lemma_ones_bound(x, (n - 1) as nat);
    }
}

/// The eight ways to step, north being towards the eighth rank.
#[derive(Clone, Copy, Debug, PartialEq, Eq, Structural)]
pub enum Direction {
    North,
    South,
    East,
    West,
    NorthEast,
    NorthWest,
    SouthEast,
    SouthWest,
}

impl Direction {
    /// Files gained by one step.
    pub open spec fn df(self) -> int {
        match self {
            Direction::North | Direction::South => 0,
            Direction::East | Direction::NorthEast | Direction::SouthEast => 1,
            Direction::West | Direction::NorthWest | Direction::SouthWest => -1,
        }
    }

    /// Ranks gained by one step.
    pub open spec fn dr(self) -> int {
        match self {
            Direction::East | Direction::West => 0,
            Direction::North | Direction::NorthEast | Direction::NorthWest => 1,
            Direction::South | Direction::SouthEast | Direction::SouthWest => -1,
        }
    }

    /// The direction as side `c` sees it.
    pub fn relative(self, c: Color) -> (d: Direction)
        ensures
            d.df() == (if c == Color::White {
                self.df()
            } else {
                -self.df()
            }),
            d.dr() == (if c == Color::White {
                self.dr()
            } else {
                -self.dr()
            }),
    {
        match c {
            Color::White => self,
            Color::Black => match self {
                Direction::North => Direction::South,
                Direction::South => Direction::North,
                Direction::East => Direction::West,
                Direction::West => Direction::East,
                Direction::NorthEast => Direction::SouthWest,
                Direction::NorthWest => Direction::SouthEast,
                Direction::SouthEast => Direction::NorthWest,
                Direction::SouthWest => Direction::NorthEast,
            },
        }
    }

    /// What one step adds to a square's number.
    pub fn delta(self) -> (d: i8)
        ensures
            d == 8 * self.dr() + self.df(),
            -9 <= d <= 9,
    {
        match self {
            Direction::North => 8,
            Direction::South => -8,
            Direction::East => 1,
            Direction::West => -1,
            Direction::NorthEast => 9,
            Direction::NorthWest => 7,
            Direction::SouthEast => -7,
            Direction::SouthWest => -9,
        }
    }
}

/// Whether one step in direction `d` leads from some square of the board to `t`.
pub open spec fn step_back_ok(d: Direction, t: int) -> bool {
    &&& 0 <= t < 64
    &&& 0 <= t % 8 - d.df() < 8
    &&& 0 <= t / 8 - d.dr() < 8
}

proof fn lemma_shift_word(x: u64, t: u64)
    by (bit_vector)
    requires
        t < 64,
    ensures
        (((x << 8) >> t) & 1 == 1) <==> (t >= 8 && (x >> ((t - 8) as u64)) & 1 == 1),
        (((x >> 8) >> t) & 1 == 1) <==> (t < 56 && (x >> ((t + 8) as u64)) & 1 == 1),
        ((((x << 1) & 0xfefe_fefe_fefe_fefe) >> t) & 1 == 1) <==> (t % 8 != 0 && (x >> ((t - 1) as u64)) & 1 == 1),
        ((((x >> 1) & 0x7f7f_7f7f_7f7f_7f7f) >> t) & 1 == 1) <==> (t % 8 != 7 && (x >> ((t + 1) as u64)) & 1 == 1),
{
}

impl Bitboard {
    /// The whole set moved one step; what would leave the board is dropped.
    pub fn shift(self, d: Direction) -> (r: Bitboard)
        ensures
            forall|t: int| #[trigger] r.has(t) <==> step_back_ok(d, t) && self.has(t - 8 * d.dr() - d.df()),
    {
        match d {
            Direction::North => self.north(),
            Direction::South => self.south(),
            Direction::East => self.east(),
            Direction::West => self.west(),
            Direction::NorthEast => self.north().east(),
            Direction::NorthWest => self.north().west(),
            Direction::SouthEast => self.south().east(),
            Direction::SouthWest => self.south().west(),
        }
    }

    fn north(self) -> (r: Bitboard)
        ensures
            forall|t: int| #[trigger] r.has(t) <==> 8 <= t < 64 && self.has(t - 8),
    {
        proof {
            assert forall|t: int| #[trigger] Bitboard(self.0 << 8).has(t) <==> 8 <= t < 64 && self.has(t - 8) by {
                reveal(Bitboard::has);
                if 0 <= t < 64 {
                    lemma_shift_word(self.0, t as u64);
                }
            }
        }
        Bitboard(self.0 << 8)
    }

    fn south(self) -> (r: Bitboard)
        ensures
            forall|t: int| #[trigger] r.has(t) <==> 0 <= t < 56 && self.has(t + 8),
    {
        proof {
            assert forall|t: int| #[trigger] Bitboard(self.0 >> 8).has(t) <==> 0 <= t < 56 && self.has(t + 8) by {
                reveal(Bitboard::has);
                if 0 <= t < 64 {
                    lemma_shift_word(self.0, t as u64);
                }
            }
        }
        Bitboard(self.0 >> 8)
    }

    fn east(self) -> (r: Bitboard)
        ensures
            forall|t: int| #[trigger] r.has(t) <==> 0 <= t < 64 && t % 8 != 0 && self.has(t - 1),
    {
        let x: u64 = (self.0 << 1) & 0xfefe_fefe_fefe_fefe;
        proof {
            assert forall|t: int| #[trigger] Bitboard(x).has(t) <==> 0 <= t < 64 && t % 8 != 0 && self.has(t - 1) by {
                reveal(Bitboard::has);
                if 0 <= t < 64 {
                    lemma_shift_word(self.0, t as u64);
                }
            }
        }
        Bitboard(x)
    }

    fn west(self) -> (r: Bitboard)
        ensures
            forall|t: int| #[trigger] r.has(t) <==> 0 <= t < 64 && t % 8 != 7 && self.has(t + 1),
    {
        let x: u64 = (self.0 >> 1) & 0x7f7f_7f7f_7f7f_7f7f;
        proof {
            assert forall|t: int| #[trigger] Bitboard(x).has(t) <==> 0 <= t < 64 && t % 8 != 7 && self.has(t + 1) by {
                reveal(Bitboard::has);
                if 0 <= t < 64 {
                    lemma_shift_word(self.0, t as u64);
                }
            }
        }
        Bitboard(x)
    }
}

} // verus!
