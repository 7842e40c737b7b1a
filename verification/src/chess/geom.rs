//! The geometry of the board: which squares see which.

use vstd::prelude::*;

use crate::chess::bitboard::Bitboard;
use crate::chess::types::Color;

verus! {

/// Whether `s` is the number of a square.
pub open spec fn on_board(s: int) -> bool {
    0 <= s < 64
}

/// The file of a square.
pub open spec fn file(s: int) -> int {
    s % 8
}

/// The rank of a square.
pub open spec fn rank(s: int) -> int {
    s / 8
}

/// The absolute value.
pub open spec fn abs(x: int) -> int {
    if x < 0 {
        -x
    } else {
        x
    }
}

/// The distance between two files.
pub open spec fn file_gap(a: int, b: int) -> int {
    abs(file(a) - file(b))
}

/// The distance between two ranks.
pub open spec fn rank_gap(a: int, b: int) -> int {
    abs(rank(a) - rank(b))
}

/// A knight on `a` reaches `t`.
pub open spec fn knight_hop(a: int, t: int) -> bool {
    ||| file_gap(a, t) == 1 && rank_gap(a, t) == 2
    ||| file_gap(a, t) == 2 && rank_gap(a, t) == 1
}

/// A king on `a` reaches `t`.
pub open spec fn king_step(a: int, t: int) -> bool {
    a != t && file_gap(a, t) <= 1 && rank_gap(a, t) <= 1
}

/// A pawn of side `c` on `a` attacks `t`.
pub open spec fn pawn_hit(c: Color, a: int, t: int) -> bool {
    file_gap(a, t) == 1 && rank(t) == rank(a) + c.up()
}

/// Two different squares on one diagonal.
pub open spec fn diagonal(a: int, t: int) -> bool {
    a != t && file_gap(a, t) == rank_gap(a, t)
}

/// Two different squares on one rank or file.
pub open spec fn straight(a: int, t: int) -> bool {
    a != t && (file(a) == file(t) || rank(a) == rank(t))
}

/// Two different squares on one line.
pub open spec fn aligned(a: int, t: int) -> bool {
    diagonal(a, t) || straight(a, t)
}

/// Whether `x` lies strictly between `a` and `b`, whichever is larger.
pub open spec fn strictly_within(a: int, x: int, b: int) -> bool {
    a < x < b || b < x < a
}

/// Square `s` lies strictly between `a` and `t`, which stand on one line.
pub open spec fn between(a: int, t: int, s: int) -> bool {
    &&& on_board(s)
    &&& if file(a) == file(t) {
        file(s) == file(a) && strictly_within(rank(a), rank(s), rank(t))
    } else if rank(a) == rank(t) {
        rank(s) == rank(a) && strictly_within(file(a), file(s), file(t))
    } else {
        &&& diagonal(a, t)
        &&& diagonal(a, s)
        &&& strictly_within(file(a), file(s), file(t))
        &&& strictly_within(rank(a), rank(s), rank(t))
    }
}

/// Square `s` lies on the whole line through `a` and `t`.
pub open spec fn on_line(a: int, t: int, s: int) -> bool {
    &&& on_board(s)
    &&& a != t
    &&& {
        ||| file(a) == file(t) && file(s) == file(a)
        ||| rank(a) == rank(t) && rank(s) == rank(a)
        ||| file(a) - rank(a) == file(t) - rank(t) && file(s) - rank(s) == file(a) - rank(a)
        ||| file(a) + rank(a) == file(t) + rank(t) && file(s) + rank(s) == file(a) + rank(a)
    }
}

/// No square of `occ` lies strictly between `a` and `t`.
pub open spec fn clear(occ: Bitboard, a: int, t: int) -> bool {
    forall|s: int| #[trigger] occ.has(s) ==> !between(a, t, s)
}

/// A bishop on `a` sees `t` past the men of `occ`.
pub open spec fn bishop_sees(occ: Bitboard, a: int, t: int) -> bool {
    on_board(t) && diagonal(a, t) && clear(occ, a, t)
}

/// A rook on `a` sees `t` past the men of `occ`.
pub open spec fn rook_sees(occ: Bitboard, a: int, t: int) -> bool {
    on_board(t) && straight(a, t) && clear(occ, a, t)
}

/// `m` steps of size `d`, where a step is -1, 0 or 1.
pub open spec fn steps(d: int, m: int) -> int {
    if d == 0 {
        0
    } else if d == 1 {
        m
    } else {
        -m
    }
}

/// `t` is `m` steps from `a` in direction `(df, dr)`.
pub open spec fn stepped(a: int, df: int, dr: int, m: int, t: int) -> bool {
    on_board(t) && file(t) == file(a) + steps(df, m) && rank(t) == rank(a) + steps(dr, m)
}

/// A square is fixed by its file and rank.
pub proof fn lemma_coords(a: int, b: int)
    requires
        file(a) == file(b),
        rank(a) == rank(b),
    ensures
        a == b,
{
}

/// The other end of a segment sees the same squares between.
pub proof fn lemma_between_symmetric(a: int, t: int, s: int)
    requires
        on_board(a),
        on_board(t),
    ensures
        between(a, t, s) == between(t, a, s),
{
}

} // verus!
