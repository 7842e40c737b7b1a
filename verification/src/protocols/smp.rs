//! Thread voting.
//!
//! Threads searching the same root from different orders reach different answers, and the
//! pool plays the one they agree on rather than the first thread's alone.

use vstd::prelude::*;

use crate::chess::defs::{self, is_loss, is_mate, is_win, INF};
use crate::chess::moves::Move;

verus! {

/// What one thread found: its move, score and completed depth.
#[derive(Clone, Copy, Debug, PartialEq, Eq, Structural)]
pub struct ThreadResult {
    pub mv: Move,
    pub score: i32,
    pub depth: i32,
}

impl ThreadResult {
    /// Whether the result fits into its word.
    pub open spec fn fits(self) -> bool {
        -32768 <= self.score <= 32767 && 0 <= self.depth <= 65535
    }

    /// Whether the thread has an opinion: it has finished a depth.
    pub open spec fn votes(self) -> bool {
        self.score != -INF
    }

    /// The result in one word.
    pub fn pack(self) -> (w: u64)
        requires
            self.fits(),
        ensures
            w == self.mv.0 + (self.score + 32768) * 65536 + self.depth * 4294967296,
    {
        self.mv.0 as u64 + (self.score + 32768) as u64 * 65536 + self.depth as u64 * 4294967296
    }

    /// The result a word holds.
    pub fn unpack(w: u64) -> (r: ThreadResult)
        ensures
            r.fits(),
            r.mv.0 == w as int % 65536,
            r.score == (w as int / 65536) % 65536 - 32768,
            r.depth == (w as int / 4294967296) % 65536,
    {
        ThreadResult {
            mv: Move::from_u16((w % 65536) as u16),
            score: ((w / 65536) % 65536) as i32 - 32768,
            depth: ((w / 4294967296) % 65536) as i32,
        }
    }
}

/// A packed result survives the round trip.
pub proof fn law_packed_results_come_back(r: ThreadResult, w: u64, back: ThreadResult)
    requires
        r.fits(),
        w == r.mv.0 + (r.score + 32768) * 65536 + r.depth * 4294967296,
        back.mv.0 == w as int % 65536,
        back.score == (w as int / 65536) % 65536 - 32768,
        back.depth == (w as int / 4294967296) % 65536,
    ensures
        back == r,
{
}

/// The least score among the first `n` results that vote.
pub open spec fn least(results: Seq<ThreadResult>, n: nat) -> Option<int>
    decreases n,
{
    if n == 0 {
        None
    } else {
        let r = results[n - 1];
        match least(results, (n - 1) as nat) {
            None => if r.votes() {
                Some(r.score as int)
            } else {
                None
            },
            Some(m) => if r.votes() && r.score < m {
                Some(r.score as int)
            } else {
                Some(m)
            },
        }
    }
}

/// What a thread's vote weighs: its lead over the least score, and ten, times its depth.
pub open spec fn weight(r: ThreadResult, min: int) -> int {
    (r.score - min + 10) * r.depth
}

/// What the first `n` threads give to a move.
pub open spec fn tally(results: Seq<ThreadResult>, mv: Move, min: int, n: nat) -> int
    decreases n,
{
    if n == 0 {
        0
    } else {
        tally(results, mv, min, (n - 1) as nat) + (if results[n - 1].mv == mv {
            weight(results[n - 1], min)
        } else {
            0
        })
    }
}

/// Whether thread `cur` displaces thread `best`.
pub open spec fn displaces(results: Seq<ThreadResult>, min: int, best: int, cur: int) -> bool {
    let a = results[best];
    let b = results[cur];
    let n = results.len();
    if defs::wins(a.score as int) {
        // A proven win only yields to a faster one.
        b.score > a.score
    } else if b.votes() && a.votes() && defs::loses(a.score as int) {
        // Already lost: the thread that proved the shortest path to it.
        b.score < a.score
    } else if b.votes() && (defs::wins(b.score as int) || defs::loses(b.score as int)) {
        // A proved mate outranks the tally.
        true
    } else {
        &&& b.mv != a.mv
        &&& !defs::loses(b.score as int)
        &&& {
            ||| tally(results, b.mv, min, n) > tally(results, a.mv, min, n)
            ||| tally(results, b.mv, min, n) == tally(results, a.mv, min, n) && weight(b, min) > weight(a, min)
        }
    }
}

/// The winner among the first `n` threads.
pub open spec fn leader(results: Seq<ThreadResult>, min: int, n: nat) -> int
    decreases n,
{
    if n <= 1 {
        0
    } else {
        let best = leader(results, min, (n - 1) as nat);
        if displaces(results, min, best, n - 1) {
            n - 1
        } else {
            best
        }
    }
}

/// The thread whose move the pool plays.
pub open spec fn elected(results: Seq<ThreadResult>) -> int {
    match least(results, results.len()) {
        None => 0,
        Some(min) => leader(results, min, results.len()),
    }
}

/// Whether these can be the results of a pool: every score is one, and a thread without an
/// opinion has completed no depth.
pub open spec fn plausible(results: Seq<ThreadResult>) -> bool {
    forall|i: int|
        0 <= i < results.len() ==> {
            &&& -INF <= (#[trigger] results[i]).score <= INF
            &&& 0 <= results[i].depth <= 65535
            &&& results[i].score == -INF ==> results[i].depth == 0
        }
}

fn least_score(results: &Vec<ThreadResult>) -> (m: Option<i32>)
    requires
        plausible(results@),
    ensures
        match m {
            Some(x) => least(results@, results@.len()) == Some(x as int) && -INF < x <= INF,
            None => least(results@, results@.len()) is None,
        },
        forall|i: int| 0 <= i < results@.len() && (#[trigger] results@[i]).votes() ==> m is Some && m->0 <= results@[i].score,
{
    let mut m: Option<i32> = None;
    let mut i: usize = 0;
    while i < results.len()
        invariant
            i <= results@.len(),
            plausible(results@),
            match m {
                Some(x) => least(results@, i as nat) == Some(x as int) && -INF < x <= INF,
                None => least(results@, i as nat) is None,
            },
            forall|j: int| 0 <= j < i && (#[trigger] results@[j]).votes() ==> m is Some && m->0 <= results@[j].score,
        decreases results@.len() - i,
    {
        let r = results[i];
        if r.score != -INF {
            m = match m {
                None => Some(r.score),
                Some(x) => if r.score < x {
                    Some(r.score)
                } else {
                    Some(x)
                },
            };
        }
        i = i + 1;
    }
    m
}

fn weigh(r: &ThreadResult, min: i32) -> (w: i64)
    requires
        -INF <= r.score <= INF,
        -INF <= min <= INF,
        0 <= r.depth <= 65535,
    ensures
        w == weight(*r, min as int),
        -4_100_000_000 <= w <= 4_100_000_000,
{
    let lead: i64 = r.score as i64 - min as i64 + 10;
    assert(-61990 * 65535 <= lead * r.depth <= 62010 * 65535) by (nonlinear_arith)
        requires
            -61990 <= lead <= 62010,
            0 <= r.depth <= 65535,
    ;
    lead * r.depth as i64
}

fn count(results: &Vec<ThreadResult>, mv: Move, min: i32) -> (t: i128)
    requires
        plausible(results@),
        -INF <= min <= INF,
    ensures
        t == tally(results@, mv, min as int, results@.len()),
{
    let mut t: i128 = 0;
    let mut i: usize = 0;
    while i < results.len()
        invariant
            i <= results@.len(),
            plausible(results@),
            -INF <= min <= INF,
            t == tally(results@, mv, min as int, i as nat),
            -4_100_000_000 * i <= t <= 4_100_000_000 * i,
        decreases results@.len() - i,
    {
        let r = results[i];
        let w: i64 = weigh(&r, min);
        if r.mv == mv {
            t = t + w as i128;
        }
        i = i + 1;
    }
    t
}

fn overtakes(results: &Vec<ThreadResult>, min: i32, best: usize, cur: usize) -> (r: bool)
    requires
        plausible(results@),
        -INF <= min <= INF,
        best < results@.len(),
        cur < results@.len(),
    ensures
        r == displaces(results@, min as int, best as int, cur as int),
{
    let a = results[best];
    let b = results[cur];
    if is_win(a.score) {
        b.score > a.score
    } else if b.score != -INF && a.score != -INF && is_loss(a.score) {
        b.score < a.score
    } else if b.score != -INF && is_mate(b.score) {
        true
    } else {
        let mine: i128 = count(results, a.mv, min);
        let theirs: i128 = count(results, b.mv, min);
        b.mv != a.mv && !is_loss(b.score) && (theirs > mine || (theirs == mine && weigh(&b, min) > weigh(&a, min)))
    }
}

/// Tallies the pool's picks and returns the thread that won.
///
/// A thread votes for its own move with `(score - least score + 10) * depth`. Depth alone
/// would let shallow threads that agree on a weak move outvote a deep one with a better.
/// Thread 0 is the incumbent, and an inconclusive tally keeps its move.
pub fn vote(results: &Vec<ThreadResult>) -> (w: usize)
    requires
        plausible(results@),
    ensures
        w == elected(results@),
        results@.len() > 0 ==> w < results@.len(),
{
    let min: i32 = match least_score(results) {
        Some(m) => m,
        None => {
            return 0;
        },
    };
    let mut best: usize = 0;
    let mut cur: usize = 1;
    while cur < results.len()
        invariant
            cur >= 1,
            plausible(results@),
                -INF <= min <= INF,
            cur <= results@.len() || results@.len() == 0,
            best < cur,
            best < results@.len() || results@.len() == 0,
            best == leader(results@, min as int, cur as nat),
        decreases results@.len() - cur,
    {
        if overtakes(results, min, best, cur) {
            best = cur;
        }
        cur = cur + 1;
    }
    best
}

/// The thread whose move the pool plays. Under a fixed depth or a mate search every thread
/// finishes the same one, and the tally would turn on timing alone: the first thread wins.
pub fn winner(depth: i32, mate: Option<i32>, results: &Vec<ThreadResult>) -> (w: usize)
    requires
        plausible(results@),
    ensures
        w == (if depth > 0 || mate is Some {
            0
        } else {
            elected(results@)
        }),
        results@.len() > 0 ==> w < results@.len(),
{
    if depth > 0 || mate.is_some() {
        return 0;
    }
    vote(results)
}

/// Threads without an opinion.
proof fn lemma_least_votes(results: Seq<ThreadResult>, n: nat)
    requires
        n <= results.len(),
    ensures
        least(results, n) is None <==> forall|i: int| 0 <= i < n ==> !(#[trigger] results[i]).votes(),
        least(results, n) is Some ==> least(results, n)->0 != -INF,
        forall|i: int| 0 <= i < n && (#[trigger] results[i]).votes() ==> least(results, n)->0 <= results[i].score,
    decreases n,
{
    if n > 0 {
        lemma_least_votes(results, (n - 1) as nat);
    }
}

/// A thread that names the same move as the leader never takes the lead from it by the
/// tally: only a proven mate or a way out of one does.
pub proof fn law_the_same_move_changes_nothing(results: Seq<ThreadResult>, min: int, best: int, cur: int)
    requires
        0 <= best < results.len(),
        0 <= cur < results.len(),
        results[best].mv == results[cur].mv,
        !defs::wins(results[best].score as int),
        !defs::loses(results[best].score as int),
        !defs::wins(results[cur].score as int),
        !defs::loses(results[cur].score as int),
    ensures
        !displaces(results, min, best, cur),
{
}

/// A proven win only yields to a faster one.
pub proof fn law_a_proven_win_yields_only_to_a_faster_one(results: Seq<ThreadResult>, min: int, best: int, cur: int)
    requires
        0 <= best < results.len(),
        0 <= cur < results.len(),
        defs::wins(results[best].score as int),
    ensures
        displaces(results, min, best, cur) <==> results[cur].score > results[best].score,
{
}

/// A proven win outranks every tally.
pub proof fn law_a_proven_win_beats_the_tally(results: Seq<ThreadResult>, min: int, best: int, cur: int)
    requires
        0 <= best < results.len(),
        0 <= cur < results.len(),
        plausible(results),
        defs::wins(results[cur].score as int),
        !defs::wins(results[best].score as int),
        !defs::loses(results[best].score as int),
    ensures
        displaces(results, min, best, cur),
{
}

/// A thread that never finished a depth never displaces one that did.
pub proof fn law_a_silent_thread_displaces_nobody(results: Seq<ThreadResult>, best: int, cur: int)
    requires
        plausible(results),
        0 <= best < results.len(),
        0 <= cur < results.len(),
        results[best].votes(),
        !results[cur].votes(),
        least(results, results.len()) is Some,
    ensures
        !displaces(results, least(results, results.len())->0, best, cur),
{
    assert(defs::loses(results[cur].score as int));
}

/// When no thread has an opinion, the first one stays.
pub proof fn law_a_silent_pool_keeps_the_first_thread(results: Seq<ThreadResult>)
    requires
        forall|i: int| 0 <= i < results.len() ==> !(#[trigger] results[i]).votes(),
    ensures
        elected(results) == 0,
{
    lemma_least_votes(results, results.len());
}

/// A vote is proportional to the depth it was reached at: `k` times the depth weighs `k` times as
/// much, and a thread that finished no depth weighs nothing.
pub proof fn law_a_vote_is_proportional_to_its_depth(a: ThreadResult, b: ThreadResult, k: int, min: int)
    requires
        a.score == b.score,
        a.depth == k * b.depth,
    ensures
        weight(a, min) == k * weight(b, min),
        a.depth == 0 ==> weight(a, min) == 0,
{
    let lead = b.score - min + 10;
    let d = b.depth as int;
    assert(lead * (k * d) == k * (lead * d)) by (nonlinear_arith);
    assert(lead * 0 == 0);
}

/// A point of score is worth as many votes as the depth has plies, and the thread with the least
/// score still has ten votes for each ply.
pub proof fn law_a_point_of_score_is_worth_its_depth(a: ThreadResult, b: ThreadResult, min: int)
    requires
        a.depth == b.depth,
    ensures
        weight(a, min) - weight(b, min) == (a.score - b.score) * a.depth,
        b.score == min ==> weight(b, min) == 10 * b.depth,
        a.depth > 0 && a.score > b.score ==> weight(a, min) > weight(b, min),
{
    let x = a.score - min + 10;
    let y = b.score - min + 10;
    let d = a.depth as int;
    assert(x * d - y * d == (x - y) * d) by (nonlinear_arith);
    assert(x > y && d > 0 ==> x * d > y * d) by (nonlinear_arith);
}

/// The least score is one that a thread voted with, and no thread voted with less.
pub proof fn law_the_least_score_is_a_vote(results: Seq<ThreadResult>, m: int)
    requires
        least(results, results.len()) == Some(m),
    ensures
        exists|i: int| 0 <= i < results.len() && (#[trigger] results[i]).votes() && results[i].score == m,
        forall|i: int| 0 <= i < results.len() && (#[trigger] results[i]).score != -INF ==> m <= results[i].score,
{
    lemma_least_attained(results, results.len(), m);
    lemma_least_votes(results, results.len());
}

proof fn lemma_least_attained(results: Seq<ThreadResult>, n: nat, m: int)
    requires
        n <= results.len(),
        least(results, n) == Some(m),
    ensures
        exists|i: int| 0 <= i < n && (#[trigger] results[i]).votes() && results[i].score == m,
    decreases n,
{
    if least(results, (n - 1) as nat) == Some(m) {
        lemma_least_attained(results, (n - 1) as nat, m);
    } else {
        assert(results[n - 1].votes());
    }
}

/// A thread adds its weight to the tally of the move it names, and to no other.
pub proof fn law_a_thread_votes_for_its_own_move(results: Seq<ThreadResult>, r: ThreadResult, mv: Move, min: int)
    ensures
        tally(results.push(r), mv, min, results.len() + 1) == tally(results, mv, min, results.len()) + (if r.mv == mv {
            weight(r, min)
        } else {
            0
        }),
        tally(results, mv, min, 0) == 0,
{
    lemma_tally_prefix(results, r, mv, min, results.len());
}

proof fn lemma_tally_prefix(results: Seq<ThreadResult>, r: ThreadResult, mv: Move, min: int, n: nat)
    requires
        n <= results.len(),
    ensures
        tally(results.push(r), mv, min, n) == tally(results, mv, min, n),
    decreases n,
{
    if n > 0 {
        lemma_tally_prefix(results, r, mv, min, (n - 1) as nat);
    }
}

/// Of two threads that name different moves with the same score, the deeper one is elected, and of
/// two equally deep ones the one with the better score; where nothing tells them apart, the first.
pub proof fn law_the_deeper_of_two_threads_is_elected(a: ThreadResult, b: ThreadResult)
    requires
        plausible(seq![a, b]),
        a.mv != b.mv,
        a.votes() && b.votes(),
        -defs::MATE_BOUND < a.score < defs::MATE_BOUND,
        -defs::MATE_BOUND < b.score < defs::MATE_BOUND,
    ensures
        a.score == b.score && a.depth < b.depth ==> elected(seq![a, b]) == 1,
        a.score == b.score && a.depth >= b.depth ==> elected(seq![a, b]) == 0,
        a.depth == b.depth && a.depth > 0 && a.score < b.score ==> elected(seq![a, b]) == 1,
        a.depth == b.depth && a.score >= b.score ==> elected(seq![a, b]) == 0,
        // A vote of ten times the depth is not outweighed by a lead of less than ninety points.
        a.depth >= 10 * b.depth && b.score - a.score < 90 ==> elected(seq![a, b]) == 0,
{
    let rs = seq![a, b];
    reveal_with_fuel(least, 3);
    reveal_with_fuel(leader, 3);
    reveal_with_fuel(tally, 3);
    let min: int = if b.score < a.score {
        b.score as int
    } else {
        a.score as int
    };
    assert(rs[0] == a && rs[1] == b);
    assert(least(rs, 1) == Some(a.score as int));
    assert(least(rs, 2) == Some(min));
    assert(tally(rs, a.mv, min, 2) == weight(a, min));
    assert(tally(rs, b.mv, min, 2) == weight(b, min));
    let x = a.score - min + 10;
    let y = b.score - min + 10;
    let d = a.depth as int;
    let e = b.depth as int;
    assert(x == y && d < e && y > 0 ==> x * d < y * e) by (nonlinear_arith);
    assert(x == y && d >= e && y > 0 ==> x * d >= y * e) by (nonlinear_arith);
    assert(d == e && d > 0 && x < y ==> x * d < y * e) by (nonlinear_arith);
    assert(d == e && d >= 0 && x >= y ==> x * d >= y * e) by (nonlinear_arith);
    assert(d >= 10 * e && e >= 0 && x >= 10 && y < 100 ==> x * d >= y * e) by (nonlinear_arith);
    assert(leader(rs, min, 1) == 0);
}

/// A lost thread yields to the one that is lost the sooner, and to no other voter.
pub proof fn law_a_lost_thread_yields_to_a_sooner_loss(results: Seq<ThreadResult>, min: int, best: int, cur: int)
    requires
        0 <= best < results.len(),
        0 <= cur < results.len(),
        results[best].votes(),
        results[cur].votes(),
        results[best].score <= -defs::MATE_BOUND,
    ensures
        displaces(results, min, best, cur) <==> results[cur].score < results[best].score,
{
}

/// Off the mates the move with more votes wins, between two with as many the thread with the
/// heavier vote, and neither displaces the other where both are alike.
pub proof fn law_votes_decide_and_weights_break_ties(results: Seq<ThreadResult>, min: int, best: int, cur: int)
    requires
        0 <= best < results.len(),
        0 <= cur < results.len(),
        !defs::wins(results[best].score as int) && !defs::loses(results[best].score as int),
        !defs::wins(results[cur].score as int) && !defs::loses(results[cur].score as int),
        results[best].mv != results[cur].mv,
    ensures
        ({
            let n = results.len();
            let a = tally(results, results[best].mv, min, n);
            let b = tally(results, results[cur].mv, min, n);
            &&& b > a ==> displaces(results, min, best, cur)
            &&& b < a ==> !displaces(results, min, best, cur)
            &&& a == b && weight(results[cur], min) > weight(results[best], min) ==> displaces(results, min, best, cur)
            &&& a == b && weight(results[cur], min) <= weight(results[best], min) ==> !displaces(results, min, best, cur)
            &&& displaces(results, min, best, cur) ==> !displaces(results, min, cur, best)
        }),
{
}

} // verus!
