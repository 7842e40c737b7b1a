//! Counting the lines of play to a depth.

use vstd::prelude::*;

use crate::chess::legal;
use crate::chess::moves::Move;
use crate::chess::position::Position;
use crate::engine::line;
use crate::engine::movegen::gen_legal_moves;

verus! {

/// The sum of the first `n` counts, kept at the greatest count.
pub open spec fn sum(counts: Seq<int>, n: nat) -> int
    decreases n,
{
    if n == 0 {
        0
    } else {
        let s = sum(counts, (n - 1) as nat) + counts[n - 1];
        if s > u64::MAX {
            u64::MAX as int
        } else {
            s
        }
    }
}

/// The first `len` counts add up to `n`.
pub open spec fn totals(counts: Seq<int>, len: nat, n: int) -> bool {
    sum(counts, len) == n
}

/// The moves of `ms` are the legal moves of `p`, each once.
#[verifier::opaque]
pub open spec fn exhausts(p: Position, ms: Seq<Move>) -> bool {
    &&& ms.no_duplicates()
    &&& forall|m: Move| #[trigger] ms.contains(m) <==> m.canonical() && legal::legal(p, m)
}

/// From `p`, `n` lines of `depth` legal moves can be played; what is beyond the greatest
/// count is counted as that.
pub open spec fn counted(p: Position, depth: nat, n: int) -> bool
    decreases depth, 0int,
{
    if depth == 0 {
        n == 1
    } else {
        exists|ms: Seq<Move>, counts: Seq<int>| #[trigger]
            exhausts(p, ms) && #[trigger] totals(counts, ms.len(), n) && forall|i: int|
                0 <= i < ms.len() ==> branch(p, #[trigger] ms[i], (depth - 1) as nat, counts[i])
    }
}

/// Behind move `m` of `p`, `n` lines of `depth` legal moves can be played.
pub open spec fn branch(p: Position, m: Move, depth: nat, n: int) -> bool
    decreases depth, 1int,
{
    exists|q: Position| #[trigger] line::followed(p, m, q) && counted(q, depth, n)
}

/// The position behind a legal move.
fn behind(pos: &Position, m: Move) -> (q: Position)
    requires
        pos.wf(),
        legal::legal(*pos, m),
    ensures
        q.wf(),
        line::followed(*pos, m, q),
{
    proof {
        reveal(line::followed);
    }
    let mut child = *pos;
    let mut acc = child.get_initial_accumulator();
    let _ = child.make_move(m, &mut acc);
    child
}

/// The legal moves of a position.
fn list(pos: &Position) -> (v: Vec<Move>)
    requires
        pos.wf(),
    ensures
        exhausts(*pos, v@),
{
    proof {
        reveal(exhausts);
    }
    gen_legal_moves(pos).moves
}

/// How many lines of `depth` legal moves can be played from `pos`.
pub fn perft(pos: &Position, depth: u8) -> (r: u64)
    requires
        pos.wf(),
    ensures
        counted(*pos, depth as nat, r as int),
    decreases depth,
{
    if depth == 0 {
        return 1;
    }
    let moves = list(pos);
    let ghost ms = moves@;
    let ghost mut counts: Seq<int> = Seq::empty();
    let mut total: u64 = 0;
    let mut i: usize = 0;
    while i < moves.len()
        invariant
            pos.wf(),
            depth > 0,
            i <= moves@.len(),
            ms == moves@,
            exhausts(*pos, ms),
            counts.len() == i,
            total == sum(counts, i as nat),
            forall|j: int| 0 <= j < i ==> branch(*pos, #[trigger] ms[j], (depth - 1) as nat, counts[j]),
        decreases moves@.len() - i,
    {
        let m = moves[i];
        assert(legal::legal(*pos, m)) by {
            reveal(exhausts);
            assert(ms.contains(m));
        }
        let child = behind(pos, m);
        let n: u64 = perft(&child, depth - 1);
        let ghost before = counts;
        proof {
            counts = counts.push(n as int);
            lemma_sum_prefix(before, counts, i as nat);
            assert(line::followed(*pos, m, child));
            assert(branch(*pos, ms[i as int], (depth - 1) as nat, counts[i as int]));
            assert forall|j: int| 0 <= j < i + 1 implies branch(*pos, #[trigger] ms[j], (depth - 1) as nat, counts[j]) by {
                if j < i {
                    assert(branch(*pos, ms[j], (depth - 1) as nat, before[j]));
                }
            }
        }
        total = total.saturating_add(n);
        i = i + 1;
    }
    assert(exhausts(*pos, ms) && totals(counts, ms.len(), total as int));
    total
}

proof fn lemma_sum_prefix(a: Seq<int>, b: Seq<int>, n: nat)
    requires
        n <= a.len() <= b.len(),
        forall|i: int| 0 <= i < n ==> a[i] == b[i],
    ensures
        sum(a, n) == sum(b, n),
    decreases n,
{
    if n > 0 {
        lemma_sum_prefix(a, b, (n - 1) as nat);
    }
}

/// As many lines of one move can be played as there are legal moves.
pub proof fn law_one_ply_counts_the_moves(p: Position, n: int)
    requires
        counted(p, 1, n),
    ensures
        exists|ms: Seq<Move>| #[trigger] exhausts(p, ms) && (ms.len() <= u64::MAX ==> n == ms.len()),
{
    reveal_with_fuel(counted, 3);
    reveal_with_fuel(branch, 3);
    let (ms, counts) = choose|ms: Seq<Move>, counts: Seq<int>| #[trigger]
        exhausts(p, ms) && #[trigger] totals(counts, ms.len(), n) && forall|i: int|
            0 <= i < ms.len() ==> branch(p, #[trigger] ms[i], 0, counts[i]);
    assert forall|i: int| 0 <= i < ms.len() implies counts[i] == 1 by {
        assert(branch(p, ms[i], 0, counts[i]));
    }
    if ms.len() <= u64::MAX {
        lemma_ones_add_up(counts, ms.len());
    }
}

proof fn lemma_ones_add_up(counts: Seq<int>, n: nat)
    requires
        n <= u64::MAX,
        forall|i: int| 0 <= i < n ==> counts[i] == 1,
    ensures
        sum(counts, n) == n,
    decreases n,
{
    if n > 0 {
        lemma_ones_add_up(counts, (n - 1) as nat);
    }
}

/// Without a move to play no line can be played, and every line ends after no moves at once.
pub proof fn law_mate_and_stalemate_end_all_lines(p: Position, depth: nat, n: int)
    requires
        counted(p, depth, n),
        forall|m: Move| m.canonical() ==> !#[trigger] legal::legal(p, m),
    ensures
        depth > 0 ==> n == 0,
        depth == 0 ==> n == 1,
{
    if depth > 0 {
        let (ms, counts) = choose|ms: Seq<Move>, counts: Seq<int>| #[trigger]
            exhausts(p, ms) && #[trigger] totals(counts, ms.len(), n) && forall|i: int|
                0 <= i < ms.len() ==> branch(p, #[trigger] ms[i], (depth - 1) as nat, counts[i]);
        reveal(exhausts);
        if ms.len() > 0 {
            assert(ms.contains(ms[0]));
        }
    }
}

} // verus!
