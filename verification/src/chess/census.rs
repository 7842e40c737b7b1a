//! Counting squares, and sets of squares built from whole files.

use vstd::prelude::*;

use crate::chess::bitboard::{self, Bitboard, Direction};
use crate::chess::geom;
use crate::chess::types::{Color, Square};

verus! {

/// How many of the squares below `n` satisfy `f`.
pub open spec fn tally(f: spec_fn(int) -> bool, n: nat) -> int
    decreases n,
{
    if n == 0 {
        0
    } else {
        tally(f, (n - 1) as nat) + (if f(n - 1) {
            1int
        } else {
            0int
        })
    }
}

/// A count is between nothing and everything.
pub proof fn lemma_tally_bounds(f: spec_fn(int) -> bool, n: nat)
    ensures
        0 <= tally(f, n) <= n,
    decreases n,
{
    if n > 0 {
        lemma_tally_bounds(f, (n - 1) as nat);
    }
}

/// The set of the squares that satisfy `f` has as many squares as satisfy it.
pub proof fn lemma_count(bb: Bitboard, f: spec_fn(int) -> bool)
    requires
        forall|s: int| geom::on_board(s) ==> (#[trigger] bb.has(s) <==> f(s)),
    ensures
        bb.count() == tally(f, 64),
        0 <= tally(f, 64) <= 64,
{
    lemma_ones(bb, f, 64);
    lemma_tally_bounds(f, 64);
}

proof fn lemma_ones(bb: Bitboard, f: spec_fn(int) -> bool, n: nat)
    requires
        n <= 64,
        forall|s: int| geom::on_board(s) ==> (#[trigger] bb.has(s) <==> f(s)),
    ensures
        bitboard::ones_below(bb.0, n) == tally(f, n),
    decreases n,
{
    if n > 0 {
        lemma_ones(bb, f, (n - 1) as nat);
        reveal(Bitboard::has);
        assert(bb.has(n - 1) <==> f(n - 1));
    }
}

/// Predicates that agree on the board are satisfied equally often.
pub proof fn lemma_tally_same(f: spec_fn(int) -> bool, g: spec_fn(int) -> bool, n: nat)
    requires
        n <= 64,
        forall|s: int| 0 <= s < n ==> (#[trigger] f(s) <==> g(s)),
    ensures
        tally(f, n) == tally(g, n),
    decreases n,
{
    if n > 0 {
        lemma_tally_same(f, g, (n - 1) as nat);
        assert(f(n - 1) <==> g(n - 1));
    }
}

/// `t` stands north of `s` on its file, or on `s` itself.
pub open spec fn north_of(s: int, t: int) -> bool {
    geom::file(s) == geom::file(t) && geom::rank(t) >= geom::rank(s)
}

impl Bitboard {
    /// Every square with a square of the set at or south of it on its file.
    pub fn north_fill(self) -> (r: Bitboard)
        ensures
            forall|t: int| #[trigger] r.has(t) <==> geom::on_board(t) && exists|s: int| #[trigger] self.has(s) && north_of(s, t),
    {
        let mut r = self;
        let mut i: u8 = 0;
        proof {
            bitboard::lemma_on_board(self);
            assert forall|t: int| self.has(t) implies #[trigger] north_of(t, t) by {}
            assert forall|s: int, t: int| geom::on_board(s) && geom::on_board(t) && north_of(s, t) && geom::rank(t) == geom::rank(
                s,
            ) implies s == t by {
                geom::lemma_coords(s, t);
            }
        }
        while i < 7
            invariant
                i <= 7,
                forall|t: int| #[trigger] r.has(t) <==> geom::on_board(t) && exists|s: int| #[trigger]
                    self.has(s) && north_of(s, t) && geom::rank(t) - geom::rank(s) <= i,
            decreases 7 - i,
        {
            let ghost r0 = r;
            r = r.or(r.shift(Direction::North));
            i = i + 1;
            proof {
                bitboard::lemma_on_board(self);
                assert forall|t: int| #[trigger] r.has(t) <==> geom::on_board(t) && exists|s: int| #[trigger]
                    self.has(s) && north_of(s, t) && geom::rank(t) - geom::rank(s) <= i by {
                    if r.has(t) && !r0.has(t) {
                        assert(r0.has(t - 8));
                        let s = choose|s: int| #[trigger]
                            self.has(s) && north_of(s, t - 8) && geom::rank(t - 8) - geom::rank(s) <= i - 1;
                        assert(self.has(s) && north_of(s, t));
                    }
                    if geom::on_board(t) && exists|s: int| #[trigger]
                        self.has(s) && north_of(s, t) && geom::rank(t) - geom::rank(s) <= i {
                        let s = choose|s: int| #[trigger]
                            self.has(s) && north_of(s, t) && geom::rank(t) - geom::rank(s) <= i;
                        if geom::rank(t) - geom::rank(s) == i {
                            assert(north_of(s, t - 8));
                            assert(r0.has(t - 8));
                        }
                    }
                }
            }
        }
        proof {
            bitboard::lemma_on_board(self);
        }
        r
    }

    /// Every square with a square of the set at or north of it on its file.
    pub fn south_fill(self) -> (r: Bitboard)
        ensures
            forall|t: int| #[trigger] r.has(t) <==> geom::on_board(t) && exists|s: int| #[trigger] self.has(s) && north_of(t, s),
    {
        let mut r = self;
        let mut i: u8 = 0;
        proof {
            bitboard::lemma_on_board(self);
            assert forall|t: int| self.has(t) implies #[trigger] north_of(t, t) by {}
            assert forall|s: int, t: int| geom::on_board(s) && geom::on_board(t) && north_of(s, t) && geom::rank(t) == geom::rank(
                s,
            ) implies s == t by {
                geom::lemma_coords(s, t);
            }
        }
        while i < 7
            invariant
                i <= 7,
                forall|t: int| #[trigger] r.has(t) <==> geom::on_board(t) && exists|s: int| #[trigger]
                    self.has(s) && north_of(t, s) && geom::rank(s) - geom::rank(t) <= i,
            decreases 7 - i,
        {
            let ghost r0 = r;
            r = r.or(r.shift(Direction::South));
            i = i + 1;
            proof {
                bitboard::lemma_on_board(self);
                assert forall|t: int| #[trigger] r.has(t) <==> geom::on_board(t) && exists|s: int| #[trigger]
                    self.has(s) && north_of(t, s) && geom::rank(s) - geom::rank(t) <= i by {
                    if r.has(t) && !r0.has(t) {
                        assert(r0.has(t + 8));
                        let s = choose|s: int| #[trigger]
                            self.has(s) && north_of(t + 8, s) && geom::rank(s) - geom::rank(t + 8) <= i - 1;
                        assert(self.has(s) && north_of(t, s));
                    }
                    if geom::on_board(t) && exists|s: int| #[trigger]
                        self.has(s) && north_of(t, s) && geom::rank(s) - geom::rank(t) <= i {
                        let s = choose|s: int| #[trigger]
                            self.has(s) && north_of(t, s) && geom::rank(s) - geom::rank(t) <= i;
                        if geom::rank(s) - geom::rank(t) == i {
                            assert(north_of(t + 8, s));
                            assert(r0.has(t + 8));
                        }
                    }
                }
            }
        }
        proof {
            bitboard::lemma_on_board(self);
        }
        r
    }

    /// Every square on a file that the set touches.
    pub fn file_fill(self) -> (r: Bitboard)
        ensures
            forall|t: int| #[trigger]
                r.has(t) <==> geom::on_board(t) && exists|s: int| #[trigger] self.has(s) && geom::file(s) == geom::file(t),
    {
        let n = self.north_fill();
        let s = self.south_fill();
        let r = n.or(s);
        proof {
            assert forall|t: int| #[trigger]
                r.has(t) <==> geom::on_board(t) && exists|s: int| #[trigger] self.has(s) && geom::file(s) == geom::file(t) by {
                if geom::on_board(t) && exists|s: int| #[trigger] self.has(s) && geom::file(s) == geom::file(t) {
                    let s = choose|s: int| #[trigger] self.has(s) && geom::file(s) == geom::file(t);
                    assert(north_of(s, t) || north_of(t, s));
                }
            }
        }
        r
    }
}

/// `t` is ahead of `s` as side `c` sees it.
pub open spec fn ahead(c: Color, s: int, t: int) -> bool {
    match c {
        Color::White => geom::rank(t) > geom::rank(s),
        Color::Black => geom::rank(t) < geom::rank(s),
    }
}

/// The squares ahead of `sq` on its own and the adjacent files.
pub fn passed_span(sq: Square, c: Color) -> (r: Bitboard)
    requires
        sq.ok(),
    ensures
        forall|t: int| #[trigger] r.has(t) <==> geom::on_board(t) && geom::file_gap(sq.at(), t) <= 1 && ahead(c, sq.at(), t),
{
    let one = sq.bitboard();
    let row = one.or(one.shift(Direction::East)).or(one.shift(Direction::West));
    let ghost a = sq.at();
    proof {
        assert forall|t: int| #[trigger] row.has(t) <==> geom::on_board(t) && geom::file_gap(a, t) <= 1 && geom::rank(t)
            == geom::rank(a) by {
            if geom::on_board(t) && geom::file_gap(a, t) <= 1 && geom::rank(t) == geom::rank(a) {
                assert(t == a || t == a + 1 || t == a - 1);
            }
        }
    }
    let next = match c {
        Color::White => row.shift(Direction::North),
        Color::Black => row.shift(Direction::South),
    };
    let r = match c {
        Color::White => next.north_fill(),
        Color::Black => next.south_fill(),
    };
    proof {
        assert forall|t: int| #[trigger] r.has(t) <==> geom::on_board(t) && geom::file_gap(a, t) <= 1 && ahead(c, a, t) by {
            match c {
                Color::White => lemma_span_north(a, row, next, r, t),
                Color::Black => lemma_span_south(a, row, next, r, t),
            }
        }
    }
    r
}

proof fn lemma_span_north(a: int, row: Bitboard, next: Bitboard, r: Bitboard, t: int)
    requires
        geom::on_board(a),
        forall|t: int| #[trigger] row.has(t) <==> geom::on_board(t) && geom::file_gap(a, t) <= 1 && geom::rank(t) == geom::rank(a),
        forall|t: int| #[trigger] next.has(t) <==> 8 <= t < 64 && row.has(t - 8),
        forall|t: int| #[trigger] r.has(t) <==> geom::on_board(t) && exists|s: int| #[trigger] next.has(s) && north_of(s, t),
    ensures
        r.has(t) <==> geom::on_board(t) && geom::file_gap(a, t) <= 1 && geom::rank(t) > geom::rank(a),
{
    if r.has(t) {
        let s = choose|s: int| #[trigger] next.has(s) && north_of(s, t);
        assert(row.has(s - 8));
    }
    if geom::on_board(t) && geom::file_gap(a, t) <= 1 && geom::rank(t) > geom::rank(a) {
        let u = geom::rank(a) * 8 + geom::file(t);
        assert(geom::file(u) == geom::file(t) && geom::rank(u) == geom::rank(a));
        assert(row.has(u));
        assert(next.has(u + 8));
        assert(north_of(u + 8, t));
    }
}

proof fn lemma_span_south(a: int, row: Bitboard, next: Bitboard, r: Bitboard, t: int)
    requires
        geom::on_board(a),
        forall|t: int| #[trigger] row.has(t) <==> geom::on_board(t) && geom::file_gap(a, t) <= 1 && geom::rank(t) == geom::rank(a),
        forall|t: int| #[trigger] next.has(t) <==> 0 <= t < 56 && row.has(t + 8),
        forall|t: int| #[trigger] r.has(t) <==> geom::on_board(t) && exists|s: int| #[trigger] next.has(s) && north_of(t, s),
    ensures
        r.has(t) <==> geom::on_board(t) && geom::file_gap(a, t) <= 1 && geom::rank(t) < geom::rank(a),
{
    if r.has(t) {
        let s = choose|s: int| #[trigger] next.has(s) && north_of(t, s);
        assert(row.has(s + 8));
    }
    if geom::on_board(t) && geom::file_gap(a, t) <= 1 && geom::rank(t) < geom::rank(a) {
        let u = geom::rank(a) * 8 + geom::file(t);
        assert(geom::file(u) == geom::file(t) && geom::rank(u) == geom::rank(a));
        assert(row.has(u));
        assert(next.has(u - 8));
        assert(north_of(t, u - 8));
    }
}

/// A count goes up by one with each square that comes in, and what satisfies `f` and what does not
/// make up the board.
pub proof fn law_a_count_counts_each_square_once(f: spec_fn(int) -> bool, g: spec_fn(int) -> bool, x: int, n: nat)
    requires
        !f(x),
        g(x),
        forall|s: int| s != x ==> (#[trigger] g(s) <==> f(s)),
    ensures
        tally(g, n) == tally(f, n) + (if 0 <= x < n {
            1int
        } else {
            0
        }),
        (forall|s: int| !#[trigger] f(s)) ==> tally(f, n) == 0,
        (forall|s: int| #[trigger] g(s)) ==> tally(g, n) == n,
    decreases n,
{
    if n > 0 {
        law_a_count_counts_each_square_once(f, g, x, (n - 1) as nat);
        assert(n - 1 != x ==> (g(n - 1) <==> f(n - 1)));
    }
}

/// Nothing satisfies `f`.
pub proof fn lemma_tally_none(f: spec_fn(int) -> bool, n: nat)
    requires
        forall|s: int| 0 <= s < n ==> !#[trigger] f(s),
    ensures
        tally(f, n) == 0,
    decreases n,
{
    if n > 0 {
        lemma_tally_none(f, (n - 1) as nat);
    }
}

/// One square satisfies `f`.
pub proof fn lemma_tally_one(f: spec_fn(int) -> bool, x: int, n: nat)
    requires
        0 <= x < n,
        f(x),
        forall|s: int| 0 <= s < n && s != x ==> !#[trigger] f(s),
    ensures
        tally(f, n) == 1,
    decreases n,
{
    if x == n - 1 {
        lemma_tally_none(f, (n - 1) as nat);
    } else {
        lemma_tally_one(f, x, (n - 1) as nat);
    }
}

/// Two squares satisfy `f`.
pub proof fn lemma_tally_two(f: spec_fn(int) -> bool, x: int, y: int, n: nat)
    requires
        0 <= x < y < n,
        f(x),
        f(y),
        forall|s: int| 0 <= s < n && s != x && s != y ==> !#[trigger] f(s),
    ensures
        tally(f, n) == 2,
    decreases n,
{
    if y == n - 1 {
        lemma_tally_one(f, x, (n - 1) as nat);
    } else {
        lemma_tally_two(f, x, y, (n - 1) as nat);
    }
}

/// White looks up the board and black down it: what is ahead for one is behind for the other, and
/// what is level is ahead for neither.
pub proof fn law_the_sides_look_at_each_other(f: int, g: int, low: int, high: int)
    requires
        0 <= f < 8,
        0 <= g < 8,
        0 <= low < high < 8,
    ensures
        ahead(Color::White, 8 * low + f, 8 * high + g),
        !ahead(Color::White, 8 * high + f, 8 * low + g),
        ahead(Color::Black, 8 * high + f, 8 * low + g),
        !ahead(Color::Black, 8 * low + f, 8 * high + g),
        !ahead(Color::White, 8 * low + f, 8 * low + g),
        !ahead(Color::Black, 8 * low + f, 8 * low + g),
{
}

} // verus!
