//! Pawn structure, and a cache of it.

use vstd::prelude::*;

use crate::chess::bitboard::{self, Bitboard, Direction};
use crate::chess::census::{self, passed_span};
use crate::chess::geom;
use crate::chess::position::Position;
use crate::chess::rules::{self, Cell};
use crate::chess::spatial;
use crate::chess::types::{Color, PieceType, Square};
use crate::chess::zobrist::{self, KeyKind};
use crate::engine::mobility::{self, Mobility};

verus! {

/// No enemy pawn can stop or take the pawn of side `c` on `s` on its way.
pub open spec fn passed(b: Seq<Cell>, c: Color, s: int) -> bool {
    &&& mobility::pawn_on(b, c, s)
    &&& forall|t: int| #[trigger]
        mobility::pawn_on(b, c.other(), t) && geom::file_gap(s, t) <= 1 ==> !census::ahead(c, s, t)
}

/// The pawn of side `c` on `s` has another right south of it.
pub open spec fn doubled(b: Seq<Cell>, c: Color, s: int) -> bool {
    mobility::pawn_on(b, c, s) && mobility::pawn_on(b, c, s - 8)
}

/// Side `c` has a pawn on a file next to that of `s`.
pub open spec fn neighboured(b: Seq<Cell>, c: Color, s: int) -> bool {
    exists|t: int| #[trigger] mobility::pawn_on(b, c, t) && geom::file_gap(s, t) == 1
}

/// The pawn of side `c` on `s` has no neighbour.
pub open spec fn isolated(b: Seq<Cell>, c: Color, s: int) -> bool {
    mobility::pawn_on(b, c, s) && !neighboured(b, c, s)
}

/// The pawn of side `c` on `s` has another right west of it.
pub open spec fn phalanx(b: Seq<Cell>, c: Color, s: int) -> bool {
    mobility::pawn_on(b, c, s) && geom::file(s) > 0 && mobility::pawn_on(b, c, s - 1)
}

/// The pawn of side `c` on `s` stands where another attacks.
pub open spec fn defended(b: Seq<Cell>, c: Color, s: int) -> bool {
    mobility::pawn_on(b, c, s) && spatial::pawn_borne(b, c, s)
}

/// Side `c` has a pawn on a file next to that of `s`, level with it or behind.
pub open spec fn supported(b: Seq<Cell>, c: Color, s: int) -> bool {
    exists|t: int| #[trigger] mobility::pawn_on(b, c, t) && geom::file_gap(s, t) == 1 && !census::ahead(c, s, t)
}

/// The pawn of side `c` on `s` is behind all its neighbours, and an enemy pawn holds the
/// square in front of it.
pub open spec fn backward(b: Seq<Cell>, c: Color, s: int) -> bool {
    let stop = s + 8 * c.up();
    &&& mobility::pawn_on(b, c, s)
    &&& neighboured(b, c, s)
    &&& !supported(b, c, s)
    &&& geom::on_board(stop)
    &&& mobility::pawn_on(b, c.other(), stop) || spatial::pawn_borne(b, c.other(), stop)
}

/// How many squares of rank `r` satisfy `f`.
pub open spec fn on_rank(f: spec_fn(int) -> bool, r: int, n: nat) -> int {
    census::tally(|s: int| f(s) && geom::rank(s) == r, n)
}

/// White's squares less black's, on the rank that each side sees as its rank `i + 2`.
pub open spec fn bucket(white: spec_fn(int) -> bool, black: spec_fn(int) -> bool, i: int) -> int {
    on_rank(white, i + 1, 64) - on_rank(black, 6 - i, 64)
}

/// The squares of a set, as a predicate.
pub open spec fn members(bb: Bitboard) -> spec_fn(int) -> bool {
    |s: int| bb.has(s)
}

/// Sorts squares by rank as their side sees it: white's count up, black's down.
fn by_relative_rank(white: Bitboard, black: Bitboard) -> (out: [i32; 6])
    requires
        forall|s: int| #[trigger] white.has(s) ==> 1 <= geom::rank(s) <= 6,
        forall|s: int| #[trigger] black.has(s) ==> 1 <= geom::rank(s) <= 6,
    ensures
        forall|i: int| 0 <= i < 6 ==> #[trigger] out[i] == bucket(members(white), members(black), i),
        forall|i: int| 0 <= i < 6 ==> -64 <= #[trigger] out[i] <= 64,
{
    let mut out: [i32; 6] = [0; 6];
    let mut s: u8 = 0;
    while s < 64
        invariant
            s <= 64,
            forall|s: int| #[trigger] white.has(s) ==> 1 <= geom::rank(s) <= 6,
            forall|s: int| #[trigger] black.has(s) ==> 1 <= geom::rank(s) <= 6,
            forall|i: int|
                0 <= i < 6 ==> #[trigger] out[i] == on_rank(members(white), i + 1, s as nat) - on_rank(
                    members(black),
                    6 - i,
                    s as nat,
                ),
            forall|i: int| 0 <= i < 6 ==> -s <= #[trigger] out[i] <= s,
        decreases 64 - s,
    {
        let sq = Square(s);
        let ghost out0 = out;
        if white.check_bit(sq) {
            let i: usize = (sq.rank() - 1) as usize;
            out[i] = out[i] + 1;
        }
        let ghost out1 = out;
        if black.check_bit(sq) {
            let i: usize = (6 - sq.rank()) as usize;
            out[i] = out[i] - 1;
        }
        proof {
            let n = (s + 1) as nat;
            assert forall|i: int| 0 <= i < 6 implies #[trigger] out[i] == on_rank(members(white), i + 1, n) - on_rank(
                members(black),
                6 - i,
                n,
            ) && -n <= out[i] <= n by {
                let w = |t: int| members(white)(t) && geom::rank(t) == i + 1;
                let k = |t: int| members(black)(t) && geom::rank(t) == 6 - i;
                assert(out0[i] == on_rank(members(white), i + 1, s as nat) - on_rank(members(black), 6 - i, s as nat));
                assert(census::tally(w, n) == census::tally(w, s as nat) + (if w(s as int) {
                    1int
                } else {
                    0int
                }));
                assert(census::tally(k, n) == census::tally(k, s as nat) + (if k(s as int) {
                    1int
                } else {
                    0int
                }));
                assert(out1[i] == out0[i] + (if w(s as int) {
                    1int
                } else {
                    0int
                }));
                assert(out[i] == out1[i] - (if k(s as int) {
                    1int
                } else {
                    0int
                }));
                census::lemma_tally_bounds(w, n);
                census::lemma_tally_bounds(k, n);
            }
        }
        s = s + 1;
    }
    out
}

/// Sets that hold what predicates say fill the same buckets.
proof fn lemma_bucket(white: Bitboard, black: Bitboard, fw: spec_fn(int) -> bool, fb: spec_fn(int) -> bool, i: int)
    requires
        forall|s: int| geom::on_board(s) ==> (#[trigger] white.has(s) <==> fw(s)),
        forall|s: int| geom::on_board(s) ==> (#[trigger] black.has(s) <==> fb(s)),
    ensures
        bucket(members(white), members(black), i) == bucket(fw, fb, i),
{
    assert forall|s: int| 0 <= s < 64 implies (#[trigger] members(white)(s) <==> fw(s)) by {
        assert(white.has(s) <==> fw(s));
    }
    assert forall|s: int| 0 <= s < 64 implies (#[trigger] members(black)(s) <==> fb(s)) by {
        assert(black.has(s) <==> fb(s));
    }
    census::lemma_tally_same(
        |s: int| members(white)(s) && geom::rank(s) == i + 1,
        |s: int| fw(s) && geom::rank(s) == i + 1,
        64,
    );
    census::lemma_tally_same(
        |s: int| members(black)(s) && geom::rank(s) == 6 - i,
        |s: int| fb(s) && geom::rank(s) == 6 - i,
        64,
    );
}

/// What the pawns alone say of a position.
#[derive(Clone, Copy, Debug)]
pub struct PawnFeatures {
    pub openness: i32,
    /// By rank as the owner sees it, white less black.
    pub passed_pawn: [i32; 6],
    pub doubled_pawn_diff: i32,
    pub isolated_pawn_diff: i32,
    pub phalanx: [i32; 6],
    pub defended_pawn: [i32; 6],
    pub backward_pawn_diff: i32,
    pub w_passers: Bitboard,
    pub b_passers: Bitboard,
}

/// White's count less black's.
pub open spec fn lead(white: spec_fn(int) -> bool, black: spec_fn(int) -> bool) -> int {
    census::tally(white, 64) - census::tally(black, 64)
}

impl PawnFeatures {
    /// Whether these are the features of board `b`.
    pub open spec fn of(self, b: Seq<Cell>) -> bool {
        &&& self.openness == mobility::board_openness(b)
        &&& forall|i: int|
            0 <= i < 6 ==> #[trigger] self.passed_pawn[i] == bucket(
                |s: int| passed(b, Color::White, s),
                |s: int| passed(b, Color::Black, s),
                i,
            )
        &&& self.doubled_pawn_diff == lead(|s: int| doubled(b, Color::White, s), |s: int| doubled(b, Color::Black, s))
        &&& self.isolated_pawn_diff == lead(|s: int| isolated(b, Color::White, s), |s: int| isolated(b, Color::Black, s))
        &&& forall|i: int|
            0 <= i < 6 ==> #[trigger] self.phalanx[i] == bucket(
                |s: int| phalanx(b, Color::White, s),
                |s: int| phalanx(b, Color::Black, s),
                i,
            )
        &&& forall|i: int|
            0 <= i < 6 ==> #[trigger] self.defended_pawn[i] == bucket(
                |s: int| defended(b, Color::White, s),
                |s: int| defended(b, Color::Black, s),
                i,
            )
        &&& self.backward_pawn_diff == lead(|s: int| backward(b, Color::White, s), |s: int| backward(b, Color::Black, s))
        &&& forall|s: int| #[trigger] self.w_passers.has(s) <==> passed(b, Color::White, s)
        &&& forall|s: int| #[trigger] self.b_passers.has(s) <==> passed(b, Color::Black, s)
    }

    /// No feature is out of proportion.
    pub open spec fn small(self) -> bool {
        &&& 0 <= self.openness <= mobility::OPEN_UNITY
        &&& forall|i: int| 0 <= i < 6 ==> -64 <= #[trigger] self.passed_pawn[i] <= 64
        &&& forall|i: int| 0 <= i < 6 ==> -64 <= #[trigger] self.phalanx[i] <= 64
        &&& forall|i: int| 0 <= i < 6 ==> -64 <= #[trigger] self.defended_pawn[i] <= 64
        &&& -64 <= self.doubled_pawn_diff <= 64
        &&& -64 <= self.isolated_pawn_diff <= 64
        &&& -64 <= self.backward_pawn_diff <= 64
    }

    /// Nothing at all.
    pub fn blank() -> (f: PawnFeatures)
        ensures
            f.small(),
            f.openness == 0 && f.doubled_pawn_diff == 0 && f.isolated_pawn_diff == 0 && f.backward_pawn_diff == 0,
            forall|i: int|
                0 <= i < 6 ==> #[trigger] f.passed_pawn[i] == 0 && f.phalanx[i] == 0 && f.defended_pawn[i] == 0,
            f.w_passers.0 == 0 && f.b_passers.0 == 0,
    {
        PawnFeatures {
            openness: 0,
            passed_pawn: [0; 6],
            doubled_pawn_diff: 0,
            isolated_pawn_diff: 0,
            phalanx: [0; 6],
            defended_pawn: [0; 6],
            backward_pawn_diff: 0,
            w_passers: Bitboard(0),
            b_passers: Bitboard(0),
        }
    }
}

/// The pawns of side `c` that are passed.
fn passers(board: &Position, c: Color) -> (r: Bitboard)
    requires
        board.mirrored(),
    ensures
        forall|s: int| #[trigger] r.has(s) <==> passed(board.board(), c, s),
{
    let ghost b = board.board();
    let mine = board.pieces(PieceType::Pawn, c);
    let theirs = board.pieces(PieceType::Pawn, c.opposite());
    let mut left = mine;
    let mut r = Bitboard::empty();
    while left.is_not_empty()
        invariant
            forall|s: int| #[trigger] mine.has(s) <==> mobility::pawn_on(b, c, s),
            forall|s: int| #[trigger] theirs.has(s) <==> mobility::pawn_on(b, c.other(), s),
            forall|s: int| #[trigger] left.has(s) ==> mine.has(s),
            forall|s: int| #[trigger] r.has(s) <==> passed(b, c, s) && !left.has(s),
        decreases left.0,
    {
        let ghost left0 = left;
        let ghost r0 = r;
        let sq = left.pop_lsb();
        let stoppers = passed_span(sq, c).and(theirs);
        let free = stoppers.is_empty();
        proof {
            if free {
                assert forall|t: int| #[trigger]
                    mobility::pawn_on(b, c.other(), t) && geom::file_gap(sq.at(), t) <= 1 implies !census::ahead(
                    c,
                    sq.at(),
                    t,
                ) by {
                    assert(!stoppers.has(t));
                    assert(theirs.has(t));
                }
            } else {
                let t = choose|t: int| #[trigger] stoppers.has(t);
                assert(mobility::pawn_on(b, c.other(), t));
            }
            assert(passed(b, c, sq.at()) == free);
        }
        if free {
            r = r.or(sq.bitboard());
        }
    }
    r
}

/// The pawns of side `c` behind all their neighbours in front of a square that the enemy's
/// pawns hold, and those without neighbours.
fn weak_pawns(board: &Position, c: Color) -> (r: (Bitboard, Bitboard))
    requires
        board.mirrored(),
    ensures
        forall|s: int| #[trigger] r.0.has(s) <==> isolated(board.board(), c, s),
        forall|s: int| #[trigger] r.1.has(s) <==> backward(board.board(), c, s),
{
    let ghost b = board.board();
    let mine = board.pieces(PieceType::Pawn, c);
    let theirs = board.pieces(PieceType::Pawn, c.opposite());
    let files = mine.file_fill();
    let beside = files.shift(Direction::East).or(files.shift(Direction::West));
    let fill = match c {
        Color::White => mine.north_fill(),
        Color::Black => mine.south_fill(),
    };
    let rear = fill.shift(Direction::East).or(fill.shift(Direction::West));
    let held = theirs.or(board.pawn_attacks(c.opposite()));
    let stop_bad = match c {
        Color::White => held.shift(Direction::South),
        Color::Black => held.shift(Direction::North),
    };
    let alone = mine.and(beside.not());
    let behind = mine.and(beside).and(rear.not()).and(stop_bad);
    proof {
        assert forall|s: int| geom::on_board(s) implies (#[trigger] beside.has(s) <==> neighboured(b, c, s)) by {
            lemma_beside(b, c, mine, files, s);
        }
        assert forall|s: int| geom::on_board(s) implies (#[trigger] rear.has(s) <==> supported(b, c, s)) by {
            lemma_rear(b, c, mine, fill, s);
        }
        assert forall|s: int| #[trigger] alone.has(s) <==> isolated(b, c, s) by {
            assert(mine.has(s) <==> mobility::pawn_on(b, c, s));
        }
        assert forall|s: int| #[trigger] behind.has(s) <==> backward(b, c, s) by {
            assert(mine.has(s) <==> mobility::pawn_on(b, c, s));
            let stop = s + 8 * c.up();
            if geom::on_board(s) {
                assert(stop_bad.has(s) <==> geom::on_board(stop) && held.has(stop));
                assert(held.has(stop) <==> mobility::pawn_on(b, c.other(), stop) || (geom::on_board(stop)
                    && spatial::pawn_borne(b, c.other(), stop)));
            }
        }
    }
    (alone, behind)
}

/// A file next to one with a pawn on it.
proof fn lemma_beside(b: Seq<Cell>, c: Color, mine: Bitboard, files: Bitboard, s: int)
    requires
        geom::on_board(s),
        forall|s: int| #[trigger] mine.has(s) <==> mobility::pawn_on(b, c, s),
        forall|t: int| #[trigger]
            files.has(t) <==> geom::on_board(t) && exists|s: int| #[trigger] mine.has(s) && geom::file(s) == geom::file(t),
    ensures
        (files.shift_has(Direction::East, s) || files.shift_has(Direction::West, s)) <==> neighboured(b, c, s),
{
    if files.shift_has(Direction::East, s) {
        let t = choose|t: int| #[trigger] mine.has(t) && geom::file(t) == geom::file(s - 1);
        assert(mobility::pawn_on(b, c, t));
    }
    if files.shift_has(Direction::West, s) {
        let t = choose|t: int| #[trigger] mine.has(t) && geom::file(t) == geom::file(s + 1);
        assert(mobility::pawn_on(b, c, t));
    }
    if neighboured(b, c, s) {
        let t = choose|t: int| #[trigger] mobility::pawn_on(b, c, t) && geom::file_gap(s, t) == 1;
        assert(mine.has(t));
        if geom::file(t) < geom::file(s) {
            assert(files.has(s - 1));
        } else {
            assert(files.has(s + 1));
        }
    }
}

/// A square with a pawn beside it, level or behind.
#[verifier::rlimit(60)]
#[verifier::spinoff_prover]
proof fn lemma_rear(b: Seq<Cell>, c: Color, mine: Bitboard, fill: Bitboard, s: int)
    requires
        geom::on_board(s),
        forall|s: int| #[trigger] mine.has(s) <==> mobility::pawn_on(b, c, s),
        forall|t: int| #[trigger]
            fill.has(t) <==> geom::on_board(t) && exists|s: int| #[trigger]
                mine.has(s) && (if c == Color::White {
                    census::north_of(s, t)
                } else {
                    census::north_of(t, s)
                }),
    ensures
        (fill.shift_has(Direction::East, s) || fill.shift_has(Direction::West, s)) <==> supported(b, c, s),
{
    if fill.shift_has(Direction::East, s) {
        let t = choose|t: int| #[trigger]
            mine.has(t) && (if c == Color::White {
                census::north_of(t, s - 1)
            } else {
                census::north_of(s - 1, t)
            });
        assert(mobility::pawn_on(b, c, t));
    }
    if fill.shift_has(Direction::West, s) {
        let t = choose|t: int| #[trigger]
            mine.has(t) && (if c == Color::White {
                census::north_of(t, s + 1)
            } else {
                census::north_of(s + 1, t)
            });
        assert(mobility::pawn_on(b, c, t));
    }
    if supported(b, c, s) {
        let t = choose|t: int| #[trigger]
            mobility::pawn_on(b, c, t) && geom::file_gap(s, t) == 1 && !census::ahead(c, s, t);
        assert(mine.has(t));
        if geom::file(t) < geom::file(s) {
            assert(fill.has(s - 1));
        } else {
            assert(fill.has(s + 1));
        }
    }
}

impl PawnFeatures {
    /// Measures the pawn structure of a position.
    pub fn compute(board: &Position) -> (f: PawnFeatures)
        requires
            board.mirrored(),
            board.pawns_sound(),
        ensures
            f.of(board.board()),
            f.small(),
    {
        let ghost b = board.board();
        let openness: i32 = Mobility::compute_openness(board);
        let wp = board.pieces(PieceType::Pawn, Color::White);
        let bp = board.pieces(PieceType::Pawn, Color::Black);
        let w_passers = passers(board, Color::White);
        let b_passers = passers(board, Color::Black);
        let passed_pawn = by_relative_rank(w_passers, b_passers);
        let w_doubled = wp.and(wp.shift(Direction::North));
        let b_doubled = bp.and(bp.shift(Direction::North));
        let (w_isolated, w_backward) = weak_pawns(board, Color::White);
        let (b_isolated, b_backward) = weak_pawns(board, Color::Black);
        // The east pawn of each pair side by side.
        let w_phalanx = wp.and(wp.shift(Direction::East));
        let b_phalanx = bp.and(bp.shift(Direction::East));
        let phalanx = by_relative_rank(w_phalanx, b_phalanx);
        let w_defended = wp.and(board.pawn_attacks(Color::White));
        let b_defended = bp.and(board.pawn_attacks(Color::Black));
        let defended_pawn = by_relative_rank(w_defended, b_defended);
        proof {
            census::lemma_count(w_doubled, |s: int| doubled(b, Color::White, s));
            census::lemma_count(b_doubled, |s: int| doubled(b, Color::Black, s));
            census::lemma_count(w_isolated, |s: int| isolated(b, Color::White, s));
            census::lemma_count(b_isolated, |s: int| isolated(b, Color::Black, s));
            census::lemma_count(w_backward, |s: int| backward(b, Color::White, s));
            census::lemma_count(b_backward, |s: int| backward(b, Color::Black, s));
            assert forall|i: int| 0 <= i < 6 implies #[trigger] passed_pawn[i] == bucket(
                |s: int| passed(b, Color::White, s),
                |s: int| passed(b, Color::Black, s),
                i,
            ) by {
                lemma_bucket(
                    w_passers,
                    b_passers,
                    |s: int| passed(b, Color::White, s),
                    |s: int| passed(b, Color::Black, s),
                    i,
                );
            }
            assert forall|i: int| 0 <= i < 6 implies #[trigger] phalanx[i] == bucket(
                |s: int| self::phalanx(b, Color::White, s),
                |s: int| self::phalanx(b, Color::Black, s),
                i,
            ) by {
                lemma_bucket(
                    w_phalanx,
                    b_phalanx,
                    |s: int| self::phalanx(b, Color::White, s),
                    |s: int| self::phalanx(b, Color::Black, s),
                    i,
                );
            }
            assert forall|i: int| 0 <= i < 6 implies #[trigger] defended_pawn[i] == bucket(
                |s: int| defended(b, Color::White, s),
                |s: int| defended(b, Color::Black, s),
                i,
            ) by {
                lemma_bucket(
                    w_defended,
                    b_defended,
                    |s: int| defended(b, Color::White, s),
                    |s: int| defended(b, Color::Black, s),
                    i,
                );
            }
        }
        PawnFeatures {
            openness,
            passed_pawn,
            doubled_pawn_diff: w_doubled.popcount() as i32 - b_doubled.popcount() as i32,
            isolated_pawn_diff: w_isolated.popcount() as i32 - b_isolated.popcount() as i32,
            phalanx,
            defended_pawn,
            backward_pawn_diff: w_backward.popcount() as i32 - b_backward.popcount() as i32,
            w_passers,
            b_passers,
        }
    }
}

/// The number of slots of a cache.
pub const CACHE_SIZE: usize = 16384;

/// One slot: features under the key of the pawns they were measured of.
#[derive(Clone, Copy, Debug)]
pub struct PawnEntry {
    pub key: u64,
    pub pawn: PawnFeatures,
}

impl PawnEntry {
    /// The slot is empty, or its features are those of a board with its key.
    pub open spec fn honest(self) -> bool {
        &&& self.pawn.small()
        &&& self.key != u64::MAX ==> recalled(self.key, self.pawn)
    }
}

/// Features of some board whose pawns have the key.
pub open spec fn recalled(key: u64, f: PawnFeatures) -> bool {
    exists|b: Seq<Cell>| #[trigger] zobrist::key(KeyKind::Pawn, b) == key && f.of(b)
}

/// A direct-mapped cache of pawn structure. The structure hardly changes along a line of
/// play, so most probes hit.
pub struct PawnCache {
    pub entries: Vec<PawnEntry>,
}

impl PawnCache {
    pub open spec fn wf(self) -> bool {
        &&& self.entries@.len() == CACHE_SIZE
        &&& forall|i: int| 0 <= i < CACHE_SIZE ==> (#[trigger] self.entries@[i]).honest()
    }

    /// What the slots hold was measured on boards of `seen`.
    pub open spec fn drawn_from(self, seen: Set<Seq<Cell>>) -> bool {
        forall|i: int|
            0 <= i < CACHE_SIZE && (#[trigger] self.entries@[i]).key != u64::MAX ==> measured_on(
                seen,
                self.entries@[i].key,
                self.entries@[i].pawn,
            )
    }

    /// The slot of a key.
    pub open spec fn slot(key: u64) -> int {
        key as int % CACHE_SIZE as int
    }

    /// An empty cache. The key of an empty slot is all ones, which keeps a board without
    /// pawns, whose key is zero, from hitting it.
    pub fn new() -> (c: PawnCache)
        ensures
            c.wf(),
            forall|i: int| 0 <= i < CACHE_SIZE ==> (#[trigger] c.entries@[i]).key == u64::MAX,
            c.drawn_from(Set::empty()),
    {
        let mut entries: Vec<PawnEntry> = Vec::with_capacity(CACHE_SIZE);
        while entries.len() < CACHE_SIZE
            invariant
                entries@.len() <= CACHE_SIZE,
                forall|i: int| 0 <= i < entries@.len() ==> (#[trigger] entries@[i]).honest() && entries@[i].key == u64::MAX,
            decreases CACHE_SIZE - entries@.len(),
        {
            entries.push(PawnEntry { key: u64::MAX, pawn: PawnFeatures::blank() });
        }
        PawnCache { entries }
    }

    /// The features of a position's pawns, measured where the slot holds another key.
    ///
    /// On a hit they are those of some board with the same key. The one key that marks an
    /// empty slot is not told apart from it.
    pub fn probe(&mut self, board: &Position) -> (f: PawnFeatures)
        requires
            old(self).wf(),
            board.wf(),
        ensures
            final(self).wf(),
            f.small(),
            board.pawn_key != u64::MAX ==> recalled(board.pawn_key, f),
            probes(*old(self), *final(self), *board, f),
            forall|seen: Set<Seq<Cell>>| #[trigger]
                old(self).drawn_from(seen) ==> {
                    &&& final(self).drawn_from(seen.insert(board.board()))
                    &&& board.pawn_key != u64::MAX ==> measured_on(seen.insert(board.board()), board.pawn_key, f)
                },
    {
        let key: u64 = board.pawn_key;
        let i: usize = (key % 16384) as usize;
        let slot = self.entries[i];
        assert(slot.honest());
        if slot.key == key {
            assert(self.entries@ =~= self.entries@.update(i as int, slot));
            proof {
                assert forall|seen: Set<Seq<Cell>>| #[trigger] old(self).drawn_from(seen) implies {
                    &&& self.drawn_from(seen.insert(board.board()))
                    &&& key != u64::MAX ==> measured_on(seen.insert(board.board()), key, slot.pawn)
                } by {
                    old(self).lemma_drawn_wider(seen, board.board());
                    assert(self.entries@[i as int].key == key);
                }
            }
            return slot.pawn;
        }
        let pawn = PawnFeatures::compute(board);
        proof {
            assert(zobrist::key(KeyKind::Pawn, board.board()) == key);
        }
        self.entries.set(i, PawnEntry { key, pawn });
        proof {
            assert forall|seen: Set<Seq<Cell>>| #[trigger] old(self).drawn_from(seen) implies {
                &&& self.drawn_from(seen.insert(board.board()))
                &&& key != u64::MAX ==> measured_on(seen.insert(board.board()), key, pawn)
            } by {
                old(self).lemma_drawn_wider(seen, board.board());
                let wider = seen.insert(board.board());
                assert(wider.contains(board.board()));
                assert(measured_on(wider, key, pawn));
                assert forall|j: int| 0 <= j < CACHE_SIZE && (#[trigger] self.entries@[j]).key != u64::MAX implies measured_on(
                    wider,
                    self.entries@[j].key,
                    self.entries@[j].pawn,
                ) by {
                    if j != i {
                        assert(self.entries@[j] == old(self).entries@[j]);
                    }
                }
            }
        }
        pawn
    }

    /// A board more to choose from takes nothing away.
    proof fn lemma_drawn_wider(self, seen: Set<Seq<Cell>>, b: Seq<Cell>)
        requires
            self.drawn_from(seen),
        ensures
            self.drawn_from(seen.insert(b)),
    {
        let wider = seen.insert(b);
        assert forall|i: int| 0 <= i < CACHE_SIZE && (#[trigger] self.entries@[i]).key != u64::MAX implies measured_on(
            wider,
            self.entries@[i].key,
            self.entries@[i].pawn,
        ) by {
            let e = self.entries@[i];
            let x = choose|x: Seq<Cell>| #[trigger]
                seen.contains(x) && zobrist::key(KeyKind::Pawn, x) == e.key && e.pawn.of(x);
            assert(wider.contains(x));
        }
    }
}

/// `f` was measured on a board of `seen` with pawn key `key`.
pub open spec fn measured_on(seen: Set<Seq<Cell>>, key: u64, f: PawnFeatures) -> bool {
    exists|b: Seq<Cell>| #[trigger] seen.contains(b) && zobrist::key(KeyKind::Pawn, b) == key && f.of(b)
}

/// The pawns of both boards stand on the same squares.
pub open spec fn same_pawns(a: Seq<Cell>, b: Seq<Cell>) -> bool {
    forall|c: Color, s: int| #[trigger] mobility::pawn_on(a, c, s) == mobility::pawn_on(b, c, s)
}

proof fn lemma_passed_alike(a: Seq<Cell>, b: Seq<Cell>, c: Color, s: int)
    requires
        same_pawns(a, b) || same_pawns(b, a),
        passed(a, c, s),
    ensures
        passed(b, c, s),
{
    assert(mobility::pawn_on(a, c, s) == mobility::pawn_on(b, c, s));
    assert forall|t: int| #[trigger] mobility::pawn_on(b, c.other(), t) && geom::file_gap(s, t) <= 1 implies !census::ahead(
        c,
        s,
        t,
    ) by {
        assert(mobility::pawn_on(a, c.other(), t) == mobility::pawn_on(b, c.other(), t));
    }
}

/// What is measured of the pawns depends on nothing else.
proof fn lemma_pawns_alone(a: Seq<Cell>, b: Seq<Cell>, c: Color)
    requires
        same_pawns(a, b),
    ensures
        (|s: int| passed(a, c, s)) == (|s: int| passed(b, c, s)),
        (|s: int| doubled(a, c, s)) == (|s: int| doubled(b, c, s)),
        (|s: int| isolated(a, c, s)) == (|s: int| isolated(b, c, s)),
        (|s: int| phalanx(a, c, s)) == (|s: int| phalanx(b, c, s)),
        (|s: int| defended(a, c, s)) == (|s: int| defended(b, c, s)),
        (|s: int| backward(a, c, s)) == (|s: int| backward(b, c, s)),
{
    assert forall|s: int| passed(a, c, s) == passed(b, c, s) by {
        if passed(a, c, s) {
            lemma_passed_alike(a, b, c, s);
        }
        if passed(b, c, s) {
            lemma_passed_alike(b, a, c, s);
        }
    }
    assert forall|t: int, d: Color| #[trigger] spatial::pawn_borne(a, d, t) == spatial::pawn_borne(b, d, t) by {
        assert forall|x: int| geom::on_board(x) implies (#[trigger] a[x] == rules::man(d, PieceType::Pawn)) == (b[x]
            == rules::man(d, PieceType::Pawn)) by {
            assert(mobility::pawn_on(a, d, x) == mobility::pawn_on(b, d, x));
        }
        if spatial::pawn_borne(a, d, t) {
            let x = choose|x: int|
                geom::on_board(x) && #[trigger] a[x] == rules::man(d, PieceType::Pawn) && geom::pawn_hit(d, x, t);
            assert(b[x] == rules::man(d, PieceType::Pawn));
        }
        if spatial::pawn_borne(b, d, t) {
            let x = choose|x: int|
                geom::on_board(x) && #[trigger] b[x] == rules::man(d, PieceType::Pawn) && geom::pawn_hit(d, x, t);
            assert(mobility::pawn_on(a, d, x));
            assert(a[x] == rules::man(d, PieceType::Pawn));
        }
    }
    assert forall|s: int| neighboured(a, c, s) == neighboured(b, c, s) by {
        if neighboured(a, c, s) {
            let t = choose|t: int| #[trigger] mobility::pawn_on(a, c, t) && geom::file_gap(s, t) == 1;
            assert(mobility::pawn_on(b, c, t));
        }
        if neighboured(b, c, s) {
            let t = choose|t: int| #[trigger] mobility::pawn_on(b, c, t) && geom::file_gap(s, t) == 1;
            assert(mobility::pawn_on(a, c, t));
        }
    }
    assert forall|s: int| supported(a, c, s) == supported(b, c, s) by {
        if supported(a, c, s) {
            let t = choose|t: int| #[trigger]
                mobility::pawn_on(a, c, t) && geom::file_gap(s, t) == 1 && !census::ahead(c, s, t);
            assert(mobility::pawn_on(b, c, t));
        }
        if supported(b, c, s) {
            let t = choose|t: int| #[trigger]
                mobility::pawn_on(b, c, t) && geom::file_gap(s, t) == 1 && !census::ahead(c, s, t);
            assert(mobility::pawn_on(a, c, t));
        }
    }
    assert((|s: int| passed(a, c, s)) =~= (|s: int| passed(b, c, s)));
    assert((|s: int| doubled(a, c, s)) =~= (|s: int| doubled(b, c, s)));
    assert((|s: int| isolated(a, c, s)) =~= (|s: int| isolated(b, c, s)));
    assert((|s: int| phalanx(a, c, s)) =~= (|s: int| phalanx(b, c, s)));
    assert((|s: int| defended(a, c, s)) =~= (|s: int| defended(b, c, s)));
    assert((|s: int| backward(a, c, s)) =~= (|s: int| backward(b, c, s)));
}

/// The features of the pawns are those of any board with the same pawns.
pub proof fn law_features_go_by_the_pawns(a: Seq<Cell>, b: Seq<Cell>, f: PawnFeatures)
    requires
        same_pawns(a, b),
        f.of(a),
    ensures
        f.of(b),
{
    lemma_pawns_alone(a, b, Color::White);
    lemma_pawns_alone(a, b, Color::Black);
    assert((|s: int| mobility::pawn_on(a, Color::White, s - 8) && mobility::pawn_on(a, Color::Black, s)) =~= (|s: int|
        mobility::pawn_on(b, Color::White, s - 8) && mobility::pawn_on(b, Color::Black, s)));
    assert((|s: int| mobility::pawn_on(a, Color::White, s) || mobility::pawn_on(a, Color::Black, s)) =~= (|s: int|
        mobility::pawn_on(b, Color::White, s) || mobility::pawn_on(b, Color::Black, s)));
    assert(mobility::board_openness(a) == mobility::board_openness(b));
    let pw = |s: int| passed(a, Color::White, s);
    let qw = |s: int| passed(b, Color::White, s);
    let pb = |s: int| passed(a, Color::Black, s);
    let qb = |s: int| passed(b, Color::Black, s);
    assert(pw == qw && pb == qb);
    assert forall|s: int| #[trigger] f.w_passers.has(s) <==> passed(b, Color::White, s) by {
        assert(pw(s) == qw(s));
    }
    assert forall|s: int| #[trigger] f.b_passers.has(s) <==> passed(b, Color::Black, s) by {
        assert(pb(s) == qb(s));
    }
}

/// A board has one set of pawn features.
pub proof fn law_pawn_features_are_settled(b: Seq<Cell>, f: PawnFeatures, g: PawnFeatures)
    requires
        f.of(b),
        g.of(b),
    ensures
        f.openness == g.openness,
        f.passed_pawn@ == g.passed_pawn@,
        f.doubled_pawn_diff == g.doubled_pawn_diff,
        f.isolated_pawn_diff == g.isolated_pawn_diff,
        f.phalanx@ == g.phalanx@,
        f.defended_pawn@ == g.defended_pawn@,
        f.backward_pawn_diff == g.backward_pawn_diff,
        f.w_passers == g.w_passers,
        f.b_passers == g.b_passers,
{
    Bitboard::lemma_ext(f.w_passers, g.w_passers);
    Bitboard::lemma_ext(f.b_passers, g.b_passers);
    assert(f.passed_pawn@ =~= g.passed_pawn@);
    assert(f.phalanx@ =~= g.phalanx@);
    assert(f.defended_pawn@ =~= g.defended_pawn@);
}

/// The cache answers with what would be measured, as long as no board that it was asked about
/// shares the key with other pawns and the key is not the mark of an empty slot.
pub proof fn law_the_cache_answers_with_what_is_measured(seen: Set<Seq<Cell>>, p: Position, f: PawnFeatures)
    requires
        p.wf(),
        p.pawn_key != u64::MAX,
        measured_on(seen.insert(p.board()), p.pawn_key, f),
        forall|b: Seq<Cell>| #[trigger]
            seen.contains(b) && zobrist::key(KeyKind::Pawn, b) == p.pawn_key ==> same_pawns(b, p.board()),
    ensures
        f.of(p.board()),
{
    let wider = seen.insert(p.board());
    let b = choose|b: Seq<Cell>| #[trigger]
        wider.contains(b) && zobrist::key(KeyKind::Pawn, b) == p.pawn_key && f.of(b);
    if b != p.board() {
        assert(seen.contains(b));
        law_features_go_by_the_pawns(b, p.board(), f);
    }
}

/// Squares on the six inner ranks fall into one rank each.
proof fn lemma_ranks_add_up(f: spec_fn(int) -> bool, n: nat)
    requires
        n <= 64,
        forall|s: int| 0 <= s < 64 && #[trigger] f(s) ==> 1 <= geom::rank(s) <= 6,
    ensures
        on_rank(f, 1, n) + on_rank(f, 2, n) + on_rank(f, 3, n) + on_rank(f, 4, n) + on_rank(f, 5, n) + on_rank(f, 6, n)
            == census::tally(f, n),
    decreases n,
{
    if n > 0 {
        lemma_ranks_add_up(f, (n - 1) as nat);
        let s = n - 1;
        assert(f(s) ==> 1 <= geom::rank(s) <= 6);
    }
}

/// Every passed pawn falls into one bucket: the buckets add up to white's passed pawns less
/// black's.
pub proof fn law_passed_pawns_add_up(p: Position, f: PawnFeatures)
    requires
        p.wf(),
        f.of(p.board()),
    ensures
        f.passed_pawn[0] + f.passed_pawn[1] + f.passed_pawn[2] + f.passed_pawn[3] + f.passed_pawn[4] + f.passed_pawn[5]
            == lead(|s: int| passed(p.board(), Color::White, s), |s: int| passed(p.board(), Color::Black, s)),
{
    let b = p.board();
    let w = |s: int| passed(b, Color::White, s);
    let k = |s: int| passed(b, Color::Black, s);
    assert forall|s: int| 0 <= s < 64 && #[trigger] w(s) implies 1 <= geom::rank(s) <= 6 by {
        assert(b[s] is Some);
    }
    assert forall|s: int| 0 <= s < 64 && #[trigger] k(s) implies 1 <= geom::rank(s) <= 6 by {
        assert(b[s] is Some);
    }
    lemma_ranks_add_up(w, 64);
    lemma_ranks_add_up(k, 64);
    assert(f.passed_pawn[0] == bucket(w, k, 0) && f.passed_pawn[1] == bucket(w, k, 1) && f.passed_pawn[2] == bucket(w, k, 2));
    assert(f.passed_pawn[3] == bucket(w, k, 3) && f.passed_pawn[4] == bucket(w, k, 4) && f.passed_pawn[5] == bucket(w, k, 5));
}

/// A probe of cache `a` with position `p` answers `f` and leaves cache `b`.
pub open spec fn probes(a: PawnCache, b: PawnCache, p: Position, f: PawnFeatures) -> bool {
    let i = PawnCache::slot(p.pawn_key);
    &&& a.entries@[i].key != p.pawn_key ==> f.of(p.board())
    &&& a.entries@[i].key == p.pawn_key ==> f == a.entries@[i].pawn
    &&& b.entries@ == a.entries@.update(i, PawnEntry { key: p.pawn_key, pawn: f })
}

/// A cache that starts empty answers every probe of a series with what would be measured, on a
/// hit as on a miss, as long as positions of the series with one key have the same pawns and no
/// key is the mark of an empty slot. A position that comes again is answered as before.
pub proof fn law_a_series_of_probes_is_answered_as_measured(
    caches: Seq<PawnCache>,
    ps: Seq<Position>,
    fs: Seq<PawnFeatures>,
    n: int,
)
    requires
        caches.len() == ps.len() + 1,
        fs.len() == ps.len(),
        caches[0].wf(),
        caches[0].drawn_from(Set::empty()),
        forall|i: int| 0 <= i < ps.len() ==> (#[trigger] ps[i]).wf() && ps[i].pawn_key != u64::MAX,
        forall|i: int| 0 <= i < ps.len() ==> probes(caches[i], caches[i + 1], #[trigger] ps[i], fs[i]),
        forall|i: int, j: int|
            0 <= i < ps.len() && 0 <= j < ps.len() && #[trigger] ps[i].pawn_key == #[trigger] ps[j].pawn_key ==> same_pawns(
                ps[i].board(),
                ps[j].board(),
            ),
        0 <= n < ps.len(),
    ensures
        fs[n].of(ps[n].board()),
        n + 1 < ps.len() && ps[n + 1] == ps[n] ==> fs[n + 1] == fs[n],
{
    lemma_series(caches, ps, fs, n);
    let i = PawnCache::slot(ps[n].pawn_key);
    let c = caches[n];
    assert(probes(caches[n], caches[n + 1], ps[n], fs[n]));
    if c.entries@[i].key == ps[n].pawn_key {
        assert(stocked(c.entries@[i], ps, n));
        let k = choose|k: int| 0 <= k < n && #[trigger] ps[k].pawn_key == c.entries@[i].key && c.entries@[i].pawn.of(
            ps[k].board(),
        );
        assert(same_pawns(ps[k].board(), ps[n].board()));
        law_features_go_by_the_pawns(ps[k].board(), ps[n].board(), fs[n]);
    }
    if n + 1 < ps.len() && ps[n + 1] == ps[n] {
        assert(probes(caches[n + 1], caches[n + 2], ps[n + 1], fs[n + 1]));
        assert(0 <= i < c.entries@.len());
    }
}

/// A slot holds what was measured at one of the first `n` positions.
spec fn stocked(e: PawnEntry, ps: Seq<Position>, n: int) -> bool {
    exists|k: int| 0 <= k < n && #[trigger] ps[k].pawn_key == e.key && e.pawn.of(ps[k].board())
}

proof fn lemma_series(caches: Seq<PawnCache>, ps: Seq<Position>, fs: Seq<PawnFeatures>, n: int)
    requires
        caches.len() == ps.len() + 1,
        fs.len() == ps.len(),
        caches[0].wf(),
        caches[0].drawn_from(Set::empty()),
        forall|i: int| 0 <= i < ps.len() ==> (#[trigger] ps[i]).wf() && ps[i].pawn_key != u64::MAX,
        forall|i: int| 0 <= i < ps.len() ==> probes(caches[i], caches[i + 1], #[trigger] ps[i], fs[i]),
        forall|i: int, j: int|
            0 <= i < ps.len() && 0 <= j < ps.len() && #[trigger] ps[i].pawn_key == #[trigger] ps[j].pawn_key ==> same_pawns(
                ps[i].board(),
                ps[j].board(),
            ),
        0 <= n <= ps.len(),
    ensures
        caches[n].entries@.len() == CACHE_SIZE,
        forall|i: int|
            0 <= i < CACHE_SIZE && (#[trigger] caches[n].entries@[i]).key != u64::MAX ==> stocked(
                caches[n].entries@[i],
                ps,
                n,
            ),
    decreases n,
{
    if n == 0 {
        assert forall|i: int| 0 <= i < CACHE_SIZE && (#[trigger] caches[0].entries@[i]).key != u64::MAX implies stocked(
            caches[0].entries@[i],
            ps,
            0,
        ) by {
            assert(measured_on(Set::empty(), caches[0].entries@[i].key, caches[0].entries@[i].pawn));
        }
    } else {
        lemma_series(caches, ps, fs, n - 1);
        let a = caches[n - 1];
        let b = caches[n];
        let p = ps[n - 1];
        let f = fs[n - 1];
        let at = PawnCache::slot(p.pawn_key);
        assert(probes(a, caches[n - 1 + 1], p, f));
        assert forall|i: int| 0 <= i < CACHE_SIZE && (#[trigger] b.entries@[i]).key != u64::MAX implies stocked(
            b.entries@[i],
            ps,
            n,
        ) by {
            if i == at && a.entries@[at].key != p.pawn_key {
                assert(ps[n - 1].pawn_key == b.entries@[i].key);
            } else {
                let e = a.entries@[i];
                assert(stocked(e, ps, n - 1));
                let k = choose|k: int| 0 <= k < n - 1 && #[trigger] ps[k].pawn_key == e.key && e.pawn.of(ps[k].board());
                assert(ps[k].pawn_key == b.entries@[i].key);
            }
        }
    }
}

/// A pawn is passed where no enemy pawn ahead of it stands on its file or a file next to it: one
/// such pawn stops it, and pawns level with it or behind it, two files away, or of its own side
/// do not. White's pawns go up the board and black's down.
pub proof fn law_a_pawn_is_passed_where_no_pawn_can_stop_it(b: Seq<Cell>, s: int, t: int)
    requires
        0 <= s < 64,
        0 <= t < 64,
    ensures
        // White's pawn on `s` against black's on `t`.
        mobility::pawn_on(b, Color::White, s) && mobility::pawn_on(b, Color::Black, t) && t / 8 > s / 8 && -1 <= t % 8 - s % 8
            <= 1 ==> !passed(b, Color::White, s) && !passed(b, Color::Black, t),
        mobility::pawn_on(b, Color::White, s) && (forall|x: int| #[trigger]
            mobility::pawn_on(b, Color::Black, x) ==> x / 8 <= s / 8 || x % 8 - s % 8 > 1 || s % 8 - x % 8 > 1) ==> passed(
            b,
            Color::White,
            s,
        ),
        mobility::pawn_on(b, Color::Black, t) && (forall|x: int| #[trigger]
            mobility::pawn_on(b, Color::White, x) ==> x / 8 >= t / 8 || x % 8 - t % 8 > 1 || t % 8 - x % 8 > 1) ==> passed(
            b,
            Color::Black,
            t,
        ),
        passed(b, Color::White, s) ==> b[s] == rules::man(Color::White, PieceType::Pawn),
        passed(b, Color::Black, t) ==> b[t] == rules::man(Color::Black, PieceType::Pawn),
{
    if mobility::pawn_on(b, Color::White, s) && mobility::pawn_on(b, Color::Black, t) && t / 8 > s / 8 && -1 <= t % 8 - s % 8
        <= 1 {
        assert(census::ahead(Color::White, s, t) && census::ahead(Color::Black, t, s));
        assert(geom::file_gap(s, t) <= 1 && geom::file_gap(t, s) <= 1);
    }
}

/// A pawn is isolated where its side has no pawn on a file next to it, wherever on that file.
pub proof fn law_a_pawn_without_neighbours_is_isolated(b: Seq<Cell>, c: Color, s: int)
    requires
        mobility::pawn_on(b, c, s),
    ensures
        (forall|t: int| #[trigger] mobility::pawn_on(b, c, t) ==> t % 8 != s % 8 + 1 && t % 8 != s % 8 - 1) ==> isolated(
            b,
            c,
            s,
        ),
        forall|t: int| #[trigger]
            mobility::pawn_on(b, c, t) && (t % 8 == s % 8 + 1 || t % 8 == s % 8 - 1) ==> !isolated(b, c, s),
{
}

/// Two pawns of a side on one file, one right before the other, make one doubled pawn: the
/// northern one. Two side by side make one phalanx: the eastern one.
pub proof fn law_pawns_in_line_and_side_by_side(b: Seq<Cell>, c: Color, s: int)
    requires
        mobility::pawn_on(b, c, s),
    ensures
        doubled(b, c, s) <==> s >= 8 && b[s - 8] == rules::man(c, PieceType::Pawn),
        phalanx(b, c, s) <==> s % 8 != 0 && b[s - 1] == rules::man(c, PieceType::Pawn),
        s % 8 == 0 ==> !phalanx(b, c, s),
        s < 8 ==> !doubled(b, c, s),
{
}

/// A pawn is defended by a pawn of its side one rank behind it and one file beside it.
pub proof fn law_pawns_defend_forwards(b: Seq<Cell>, s: int)
    requires
        0 <= s < 64,
    ensures
        mobility::pawn_on(b, Color::White, s) ==> (defended(b, Color::White, s) <==> (s >= 8 && s % 8 != 7
            && mobility::pawn_on(b, Color::White, s - 7)) || (s >= 8 && s % 8 != 0 && mobility::pawn_on(
            b,
            Color::White,
            s - 9,
        ))),
        mobility::pawn_on(b, Color::Black, s) ==> (defended(b, Color::Black, s) <==> (s < 56 && s % 8 != 0
            && mobility::pawn_on(b, Color::Black, s + 7)) || (s < 56 && s % 8 != 7 && mobility::pawn_on(
            b,
            Color::Black,
            s + 9,
        ))),
{
    if spatial::pawn_borne(b, Color::White, s) {
        let a = choose|a: int|
            geom::on_board(a) && #[trigger] b[a] == rules::man(Color::White, PieceType::Pawn) && geom::pawn_hit(
                Color::White,
                a,
                s,
            );
        assert(a == s - 7 || a == s - 9);
    }
    if spatial::pawn_borne(b, Color::Black, s) {
        let a = choose|a: int|
            geom::on_board(a) && #[trigger] b[a] == rules::man(Color::Black, PieceType::Pawn) && geom::pawn_hit(
                Color::Black,
                a,
                s,
            );
        assert(a == s + 7 || a == s + 9);
    }
    if s >= 8 && s % 8 != 7 && mobility::pawn_on(b, Color::White, s - 7) {
        assert(geom::pawn_hit(Color::White, s - 7, s));
    }
    if s >= 8 && s % 8 != 0 && mobility::pawn_on(b, Color::White, s - 9) {
        assert(geom::pawn_hit(Color::White, s - 9, s));
    }
    if s < 56 && s % 8 != 0 && mobility::pawn_on(b, Color::Black, s + 7) {
        assert(geom::pawn_hit(Color::Black, s + 7, s));
    }
    if s < 56 && s % 8 != 7 && mobility::pawn_on(b, Color::Black, s + 9) {
        assert(geom::pawn_hit(Color::Black, s + 9, s));
    }
}

/// A backward pawn has neighbours, all of them ahead of it, and an enemy pawn stands before it or
/// attacks the square before it. A pawn that a neighbour stands level with or behind is not
/// backward, nor is one whose way is free.
pub proof fn law_a_backward_pawn_is_left_behind(b: Seq<Cell>, s: int, t: int)
    requires
        0 <= s < 64,
        0 <= t < 64,
    ensures
        backward(b, Color::White, s) && mobility::pawn_on(b, Color::White, t) && (t % 8 == s % 8 + 1 || t % 8 == s % 8 - 1)
            ==> t / 8 > s / 8,
        backward(b, Color::Black, s) && mobility::pawn_on(b, Color::Black, t) && (t % 8 == s % 8 + 1 || t % 8 == s % 8 - 1)
            ==> t / 8 < s / 8,
        backward(b, Color::White, s) ==> !isolated(b, Color::White, s) && s < 56 && (mobility::pawn_on(b, Color::Black, s + 8)
            || spatial::pawn_borne(b, Color::Black, s + 8)),
        backward(b, Color::Black, s) ==> !isolated(b, Color::Black, s) && s >= 8 && (mobility::pawn_on(b, Color::White, s - 8)
            || spatial::pawn_borne(b, Color::White, s - 8)),
        // And where all that holds, it is backward.
        mobility::pawn_on(b, Color::White, s) && mobility::pawn_on(b, Color::White, t) && (t % 8 == s % 8 + 1 || t % 8 == s % 8
            - 1) && (forall|x: int| #[trigger]
            mobility::pawn_on(b, Color::White, x) && (x % 8 == s % 8 + 1 || x % 8 == s % 8 - 1) ==> x / 8 > s / 8) && s < 56
            && mobility::pawn_on(b, Color::Black, s + 8) ==> backward(b, Color::White, s),
        mobility::pawn_on(b, Color::Black, s) && mobility::pawn_on(b, Color::Black, t) && (t % 8 == s % 8 + 1 || t % 8 == s % 8
            - 1) && (forall|x: int| #[trigger]
            mobility::pawn_on(b, Color::Black, x) && (x % 8 == s % 8 + 1 || x % 8 == s % 8 - 1) ==> x / 8 < s / 8) && s >= 8
            && mobility::pawn_on(b, Color::White, s - 8) ==> backward(b, Color::Black, s),
{
    assert(t % 8 == s % 8 + 1 || t % 8 == s % 8 - 1 ==> geom::file_gap(s, t) == 1);
}

/// Features sorted by rank count from the owner's second rank: a white square on rank `r`, counted
/// from zero, counts one up in place `r - 1`, a black one there one down in place `6 - r`.
pub proof fn law_ranks_are_counted_from_the_owners_side(x: int, i: int)
    requires
        8 <= x < 56,
        0 <= i < 6,
    ensures
        bucket(|s: int| s == x, |s: int| false, i) == (if x / 8 == i + 1 {
            1int
        } else {
            0
        }),
        bucket(|s: int| false, |s: int| s == x, i) == (if x / 8 == 6 - i {
            -1int
        } else {
            0
        }),
{
    let one = |s: int| s == x;
    let none = |s: int| false;
    let a = |s: int| one(s) && geom::rank(s) == i + 1;
    let b = |s: int| none(s) && geom::rank(s) == 6 - i;
    let c = |s: int| none(s) && geom::rank(s) == i + 1;
    let d = |s: int| one(s) && geom::rank(s) == 6 - i;
    census::lemma_tally_none(b, 64);
    census::lemma_tally_none(c, 64);
    if x / 8 == i + 1 {
        census::lemma_tally_one(a, x, 64);
    } else {
        census::lemma_tally_none(a, 64);
    }
    if x / 8 == 6 - i {
        census::lemma_tally_one(d, x, 64);
    } else {
        census::lemma_tally_none(d, 64);
    }
}

/// What white has counts up and what black has counts down.
pub proof fn law_white_counts_up_and_black_down(white: spec_fn(int) -> bool, black: spec_fn(int) -> bool)
    ensures
        lead(white, black) == -lead(black, white),
        (forall|s: int| 0 <= s < 64 ==> !#[trigger] black(s)) ==> lead(white, black) >= 0,
        (forall|s: int| 0 <= s < 64 ==> !#[trigger] black(s)) && (exists|s: int| 0 <= s < 64 && #[trigger] white(s)) ==> lead(
            white,
            black,
        ) >= 1,
{
    census::lemma_tally_bounds(white, 64);
    if forall|s: int| 0 <= s < 64 ==> !#[trigger] black(s) {
        census::lemma_tally_none(black, 64);
        if exists|s: int| 0 <= s < 64 && #[trigger] white(s) {
            let x = choose|s: int| 0 <= s < 64 && #[trigger] white(s);
            lemma_tally_some(white, x, 64);
        }
    }
}

proof fn lemma_tally_some(f: spec_fn(int) -> bool, x: int, n: nat)
    requires
        0 <= x < n,
        f(x),
    ensures
        census::tally(f, n) >= 1,
    decreases n,
{
    census::lemma_tally_bounds(f, (n - 1) as nat);
    if x < n - 1 {
        lemma_tally_some(f, x, (n - 1) as nat);
    }
}

} // verus!
