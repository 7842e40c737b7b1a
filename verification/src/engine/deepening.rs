//! Iterative deepening: depth 1, then 2, then 3.
//!
//! The repeated shallow work pays for itself: each iteration's move ordering feeds the
//! next, and a deep search with good ordering costs far less than a blind one. It also
//! makes the search stoppable at any moment, since the last completed iteration always has
//! a move ready.

use vstd::prelude::*;

use crate::chess::defs::{is_mate, mate_in, mated_in, INF, MATE, MAX_DEPTH};
use crate::chess::legal;
use crate::chess::moves::Move;
use crate::chess::position::Position;
use crate::engine::config::{Limits, SearchConfig};
use crate::engine::history::{History, HistoryCaps};
use crate::engine::line::{self, Line};
use crate::engine::loops;
use crate::engine::memory::{self, Origin};
use crate::engine::movegen::gen_legal_moves;
use crate::engine::negamax;
use crate::engine::search::{
    self, NodeType, PvSnapshot, Report, RootMove, SearchAborted, Searcher, Worker, REACH, SNAPSHOTS, WINDOW,
};
use crate::engine::tm::{self, elapsed_ms, fixed_budget, Budget, Iteration};
use crate::engine::tt::TranspositionTable;
use crate::engine::value;
use crate::protocols::smp::ThreadResult;

verus! {

broadcast use {
    crate::engine::history::lemma_grown_same,
    crate::engine::history::lemma_grown_further,
    crate::engine::memory::lemma_furnished_same,
    crate::engine::memory::lemma_furnished_further,
};

/// The keys that a repetition at the root can meet, and the root's own: positions older
/// than the last capture or pawn move never come back.
pub open spec fn trail_of(history: Seq<u64>, clock: int, key: u64) -> Seq<u64> {
    let keep = if history.len() < clock {
        history.len() as int
    } else {
        clock
    };
    history.skip(history.len() - keep).push(key)
}

/// [`trail_of`] a position.
fn fill_trail(pos: &Position, history: &[u64]) -> (t: Vec<u64>)
    ensures
        t@ == trail_of(history@, pos.halfmove_clock as int, pos.hash),
{
    let n: usize = history.len();
    let clock: usize = pos.halfmove_clock as usize;
    let keep: usize = if n < clock {
        n
    } else {
        clock
    };
    let mut t: Vec<u64> = Vec::new();
    let mut i: usize = n - keep;
    let ghost start = i;
    while i < n
        invariant
            start <= i <= n,
            n == history@.len(),
            t@ == history@.subrange(start as int, i as int),
        decreases n - i,
    {
        t.push(history[i]);
        i = i + 1;
        assert(t@ =~= history@.subrange(start as int, i as int));
    }
    t.push(pos.hash);
    assert(t@ =~= trail_of(history@, pos.halfmove_clock as int, pos.hash));
    t
}

/// The list holds the legal moves of `p`, each once.
pub open spec fn lists(rm: Seq<RootMove>, p: Position) -> bool {
    &&& negamax::moves_of(rm).no_duplicates()
    &&& forall|m: Move| #[trigger] negamax::moves_of(rm).contains(m) <==> search::may(p, m)
}

/// Nothing is known of any root move.
pub open spec fn unsearched(rm: Seq<RootMove>) -> bool {
    forall|i: int|
        0 <= i < rm.len() ==> (#[trigger] rm[i]).score == -INF && rm[i].pv.wf() && rm[i].pv.len == 0 && rm[i].nodes == 0
}

/// The legal moves of a position as root moves.
fn list_root(pos: &Position) -> (rm: Vec<RootMove>)
    requires
        pos.wf(),
    ensures
        lists(rm@, *pos),
        unsearched(rm@),
{
    let list = gen_legal_moves(pos);
    let mut rm: Vec<RootMove> = Vec::new();
    let mut i: usize = 0;
    while i < list.len()
        invariant
            i <= list@.len(),
            rm@.len() == i,
            forall|j: int| 0 <= j < i ==> (#[trigger] rm@[j]).mv == list@[j],
            unsearched(rm@),
        decreases list@.len() - i,
    {
        rm.push(RootMove::new(list.get(i)));
        i = i + 1;
    }
    proof {
        assert(negamax::moves_of(rm@) =~= list@);
        assert forall|m: Move| #[trigger] negamax::moves_of(rm@).contains(m) <==> search::may(*pos, m) by {
            reveal(search::may);
        }
    }
    rm
}

/// The limits that hold before any clock is weighed: those of a fixed time per move.
pub open spec fn preset(limits: Limits, overhead: int) -> Budget {
    if !limits.infinite && limits.movetime > 0 {
        let t = tm::trimmed(limits.movetime as int, overhead) as u64;
        Budget { soft: Some(t), hard: Some(t) }
    } else {
        Budget { soft: None, hard: None }
    }
}

fn first_budget(cfg: &SearchConfig, pos: &Position) -> (b: Budget)
    ensures
        b == preset(cfg.limits, cfg.overhead as int),
{
    match fixed_budget(&cfg.limits, pos.stm, cfg.overhead) {
        Some(b) => b,
        None => Budget::unbounded(),
    }
}

/// How deep a search goes: twice the moves of a wanted mate, or the wanted depth, or as
/// deep as there is room.
pub open spec fn depth_wanted(limits: Limits) -> int {
    let d = match limits.mate {
        Some(m) => if m > 0 {
            2 * m
        } else {
            0
        },
        None => if limits.depth > 0 {
            limits.depth as int
        } else {
            MAX_DEPTH as int
        },
    };
    legal::lesser(d, MAX_DEPTH as int)
}

/// [`depth_wanted`].
pub fn depth_limit(limits: &Limits) -> (d: i32)
    ensures
        d == depth_wanted(*limits),
{
    match limits.mate {
        Some(m) => if m > MAX_DEPTH / 2 {
            MAX_DEPTH
        } else if m > 0 {
            m * 2
        } else {
            0
        },
        None => if limits.depth > 0 && limits.depth < MAX_DEPTH {
            limits.depth
        } else {
            MAX_DEPTH
        },
    }
}

/// Where an entry with score `x` goes in a list by falling score, behind its equals.
pub open spec fn place_of(t: Seq<RootMove>, x: int) -> int
    decreases t.len(),
{
    if t.len() == 0 || t[0].score < x {
        0
    } else {
        1 + place_of(t.drop_first(), x)
    }
}

/// The list by falling score, equals in the order they had.
pub open spec fn ranked(s: Seq<RootMove>) -> Seq<RootMove>
    decreases s.len(),
{
    if s.len() == 0 {
        s
    } else {
        let t = ranked(s.drop_last());
        t.insert(place_of(t, s.last().score as int), s.last())
    }
}

/// The list falls.
pub open spec fn falling(s: Seq<RootMove>) -> bool {
    forall|i: int, j: int| 0 <= i <= j < s.len() ==> (#[trigger] s[i]).score >= (#[trigger] s[j]).score
}

/// The same moves, in whatever order.
pub open spec fn same_moves(a: Seq<RootMove>, b: Seq<RootMove>) -> bool {
    negamax::moves_of(a).to_multiset() == negamax::moves_of(b).to_multiset()
}

proof fn lemma_place(t: Seq<RootMove>, x: int)
    ensures
        0 <= place_of(t, x) <= t.len(),
        forall|i: int| 0 <= i < place_of(t, x) ==> (#[trigger] t[i]).score >= x,
        place_of(t, x) < t.len() ==> t[place_of(t, x)].score < x,
    decreases t.len(),
{
    if t.len() > 0 && t[0].score >= x {
        let u = t.drop_first();
        lemma_place(u, x);
        assert forall|i: int| 0 <= i < place_of(t, x) implies (#[trigger] t[i]).score >= x by {
            if i > 0 {
                assert(u[i - 1].score >= x);
            }
        }
        if place_of(t, x) < t.len() {
            assert(t[place_of(t, x)] == u[place_of(u, x)]);
        }
    }
}

/// The place is the one that its surroundings say.
proof fn lemma_place_found(t: Seq<RootMove>, x: int, j: int)
    requires
        0 <= j <= t.len(),
        forall|i: int| 0 <= i < j ==> (#[trigger] t[i]).score >= x,
        j < t.len() ==> t[j].score < x,
    ensures
        place_of(t, x) == j,
{
    lemma_place(t, x);
    let k = place_of(t, x);
    if k < j {
        assert(t[k].score >= x);
    }
    if j < k {
        assert(t[j].score >= x);
    }
}

/// Ranking a list of root moves loses none, adds none and puts them by falling score.
pub proof fn law_ranking_sorts(s: Seq<RootMove>)
    ensures
        ranked(s).len() == s.len(),
        falling(ranked(s)),
        ranked(s).to_multiset() =~= s.to_multiset(),
    decreases s.len(),
{
    broadcast use vstd::seq_lib::group_to_multiset_ensures;

    if s.len() > 0 {
        let r = s.drop_last();
        let t = ranked(r);
        let x = s.last();
        law_ranking_sorts(r);
        lemma_place(t, x.score as int);
        let k = place_of(t, x.score as int);
        let u = t.insert(k, x);
        assert(ranked(s) == u);
        assert forall|i: int, j: int| 0 <= i <= j < u.len() implies (#[trigger] u[i]).score >= (#[trigger] u[j]).score by {
            let a = if i < k {
                t[i]
            } else if i == k {
                x
            } else {
                t[i - 1]
            };
            let b = if j < k {
                t[j]
            } else if j == k {
                x
            } else {
                t[j - 1]
            };
            assert(u[i] == a && u[j] == b);
            if i < k && j > k {
                assert(t[i].score >= t[j - 1].score);
            }
            if i == k && j > k {
                assert(t[k].score >= t[j - 1].score);
            }
        }
        assert(s =~= r.push(x));
    }
}

/// The first of the best goes first.
pub proof fn law_the_leader_goes_first(s: Seq<RootMove>, k: int)
    requires
        0 <= k < s.len(),
        forall|j: int| 0 <= j < s.len() ==> (#[trigger] s[j]).score <= s[k].score,
        forall|j: int| 0 <= j < k ==> (#[trigger] s[j]).score < s[k].score,
    ensures
        ranked(s)[0] == s[k],
    decreases s.len(),
{
    broadcast use vstd::seq_lib::group_to_multiset_ensures;

    let r = s.drop_last();
    let t = ranked(r);
    let x = s.last();
    law_ranking_sorts(r);
    lemma_place(t, x.score as int);
    if k == s.len() - 1 {
        if t.len() > 0 {
            assert(t.contains(t[0]));
            assert(t.to_multiset().contains(t[0]));
            assert(r.contains(t[0]));
            let j = choose|j: int| 0 <= j < r.len() && r[j] == t[0];
            assert(s[j].score < s[k].score);
        }
    } else {
        law_the_leader_goes_first(r, k);
        assert(s[s.len() - 1].score <= s[k].score);
        assert(t[0] == s[k]);
    }
}

/// The moves of lists with the same entries are the same.
proof fn lemma_moves_multiset(a: Seq<RootMove>, b: Seq<RootMove>)
    requires
        a.to_multiset() == b.to_multiset(),
    ensures
        same_moves(a, b),
    decreases a.len(),
{
    broadcast use vstd::seq_lib::group_to_multiset_ensures;

    if a.len() == 0 {
        assert(b.len() == 0) by {
            assert(a.to_multiset().len() == a.len());
            assert(b.to_multiset().len() == b.len());
        }
        assert(negamax::moves_of(a) =~= negamax::moves_of(b));
    } else {
        let x = a.last();
        assert(a.contains(x));
        assert(b.to_multiset().contains(x));
        assert(b.contains(x));
        let j = choose|j: int| 0 <= j < b.len() && b[j] == x;
        let a1 = a.remove(a.len() - 1);
        let b1 = b.remove(j);
        lemma_moves_multiset(a1, b1);
        let ma = negamax::moves_of(a);
        let mb = negamax::moves_of(b);
        assert(ma.remove(a.len() - 1) =~= negamax::moves_of(a1));
        assert(mb.remove(j) =~= negamax::moves_of(b1));
        assert(ma.to_multiset() =~= ma.remove(a.len() - 1).to_multiset().insert(x.mv));
        assert(mb.to_multiset() =~= mb.remove(j).to_multiset().insert(x.mv));
    }
}

/// The entries whose moves are wanted; all of them where none is named.
pub open spec fn wanted(rm: Seq<RootMove>, moves: Seq<Move>) -> Seq<RootMove> {
    if moves.len() == 0 {
        rm
    } else {
        rm.filter(|x: RootMove| moves.contains(x.mv))
    }
}

/// Whether `m` is among `moves`.
fn among(moves: &Vec<Move>, m: Move) -> (r: bool)
    ensures
        r == moves@.contains(m),
{
    let mut i: usize = 0;
    while i < moves.len()
        invariant
            i <= moves@.len(),
            forall|j: int| 0 <= j < i ==> moves@[j] != m,
        decreases moves@.len() - i,
    {
        if moves[i] == m {
            assert(moves@[i as int] == m);
            return true;
        }
        i = i + 1;
    }
    false
}

/// [`wanted`].
fn keep_wanted(rm: &Vec<RootMove>, moves: &Vec<Move>) -> (r: Vec<RootMove>)
    requires
        moves@.len() > 0,
    ensures
        r@ == wanted(rm@, moves@),
{
    let ghost p = |x: RootMove| moves@.contains(x.mv);
    let mut r: Vec<RootMove> = Vec::new();
    let mut i: usize = 0;
    proof {
        reveal(Seq::filter);
        assert(rm@.take(0) =~= Seq::empty());
    }
    while i < rm.len()
        invariant
            i <= rm@.len(),
            p == (|x: RootMove| moves@.contains(x.mv)),
            r@ == rm@.take(i as int).filter(p),
        decreases rm@.len() - i,
    {
        if among(moves, rm[i].mv) {
            r.push(rm[i]);
        }
        proof {
            reveal(Seq::filter);
            let t = rm@.take(i + 1);
            assert(t.drop_last() =~= rm@.take(i as int));
            assert(t.last() == rm@[i as int]);
        }
        i = i + 1;
    }
    assert(rm@.take(i as int) =~= rm@);
    r
}

/// What filtering leaves was there before.
proof fn lemma_wanted(rm: Seq<RootMove>, moves: Seq<Move>)
    ensures
        forall|i: int| 0 <= i < wanted(rm, moves).len() ==> rm.contains(#[trigger] wanted(rm, moves)[i]),
{
    let p = |x: RootMove| moves.contains(x.mv);
    assert forall|i: int| 0 <= i < wanted(rm, moves).len() implies rm.contains(#[trigger] wanted(rm, moves)[i]) by {
        let x = wanted(rm, moves)[i];
        if moves.len() > 0 {
            assert(rm.filter(p).contains(x));
            rm.lemma_filter_contains_rev(p, x);
        }
    }
}

/// What there is to do before the first iteration.
#[derive(Clone, Copy, Debug, PartialEq, Eq, Structural)]
pub enum Prelude {
    /// The moves to this depth are to be counted.
    Perft(u8),
    /// There is no legal move.
    NoMoves,
    /// None of the wanted moves is legal.
    NoMatch,
    /// There are moves to search.
    Ready,
}

/// A search between two iterations.
pub struct Deepening {
    pub worker: Worker,
    /// The next iteration.
    pub depth: i32,
    /// The last iteration.
    pub limit: i32,
    /// When the current iteration started.
    pub last_elapsed: u64,
}

impl Deepening {
    /// This is a search of `s`.
    pub open spec fn fits(self, s: Searcher) -> bool {
        &&& self.worker.wf()
        &&& self.worker.pos == s.root_pos
        &&& !self.worker.is_nmp_verif
        &&& 1 <= self.depth
        &&& self.depth <= self.limit + 1 || self.depth == 1
        &&& self.limit <= MAX_DEPTH
    }
}

/// What an attempt at another iteration comes to.
#[derive(Clone, Copy, Debug, PartialEq, Eq, Structural)]
pub enum Attempt {
    /// No further iteration is started.
    Finished,
    /// The iteration was cut short; what the last one found stands.
    Aborted,
    /// The iteration was completed.
    Completed(Iteration),
}

impl<'cfg> Searcher<'cfg> {
    /// The line that the search believes in can be played from the root.
    pub open spec fn believes(self) -> bool {
        self.prev_pv.len > 0 ==> line::playable(self.root_pos, self.prev_pv@)
    }

    /// Nothing has been searched yet.
    pub open spec fn waits(self) -> bool {
        &&& self.prev_pv.len == 0
        &&& self.prev_score == -INF
        &&& self.nodes == 0
        &&& self.sel_depth == 0
        &&& self.iter_depth == 0
        &&& self.pv_history@.len() == 0
        &&& self.reports@.len() == 0
        &&& unsearched(self.root_moves@)
    }

    /// A search from `pos`. The clock is not weighed here: a clocked search has no limits
    /// until they are set.
    pub fn new(cfg: &'cfg SearchConfig, pos: &Position, history: &[u64], tt: TranspositionTable) -> (s: Searcher<'cfg>)
        requires
            cfg.wf(),
            pos.wf(),
            tt.wf(),
            tt.within(REACH as int),
        ensures
            s.wf(),
            s.waits(),
            s.rooted(),
            lists(s.root_moves@, *pos),
            s.cfg == cfg,
            s.root_pos == *pos,
            s.tt == tt,
            s.zobrist_trail@ == trail_of(history@, pos.halfmove_clock as int, pos.hash),
            s.budget == preset(cfg.limits, cfg.overhead as int),
    {
        proof {
            reveal(Searcher::kept);
        }
        let root_moves = list_root(pos);
        let s = Searcher {
            cfg,
            budget: first_budget(cfg, pos),
            root_moves,
            zobrist_trail: fill_trail(pos, history),
            root_pos: *pos,
            prev_pv: Line::new(),
            prev_score: -INF,
            nodes: 0,
            sel_depth: 0,
            iter_depth: 0,
            pv_history: Vec::new(),
            reports: Vec::new(),
            tt,
        };
        proof {
            lemma_lists_root(s.root_moves@, *pos);
        }
        s
    }

    /// Makes the search ready for another root. The table is kept.
    pub fn reset(&mut self, cfg: &'cfg SearchConfig, pos: &Position, history: &[u64])
        requires
            old(self).wf(),
            cfg.wf(),
            pos.wf(),
        ensures
            final(self).wf(),
            final(self).waits(),
            final(self).rooted(),
            lists(final(self).root_moves@, *pos),
            final(self).cfg == cfg,
            final(self).root_pos == *pos,
            final(self).tt == old(self).tt,
            final(self).zobrist_trail@ == trail_of(history@, pos.halfmove_clock as int, pos.hash),
            final(self).budget == preset(cfg.limits, cfg.overhead as int),
    {
        proof {
            reveal(Searcher::kept);
        }
        self.cfg = cfg;
        self.budget = first_budget(cfg, pos);
        self.root_moves = list_root(pos);
        self.zobrist_trail = fill_trail(pos, history);
        self.root_pos = *pos;
        self.prev_pv = Line::new();
        self.prev_score = -INF;
        self.nodes = 0;
        self.sel_depth = 0;
        self.iter_depth = 0;
        self.pv_history = Vec::new();
        self.reports = Vec::new();
        proof {
            lemma_lists_root(self.root_moves@, *pos);
        }
    }

    /// Sets the limits that the clock allows.
    pub fn set_budget(&mut self, budget: Budget)
        requires
            old(self).wf(),
        ensures
            final(self).wf(),
            *final(self) == (Searcher { budget, ..*old(self) }),
    {
        proof {
            reveal(Searcher::kept);
        }
        self.budget = budget;
    }

    /// The first root move.
    pub fn best_move(&self) -> (r: Option<Move>)
        ensures
            r == (if self.root_moves@.len() > 0 {
                Some(self.root_moves@[0].mv)
            } else {
                None
            }),
    {
        if self.root_moves.len() > 0 {
            Some(self.root_moves[0].mv)
        } else {
            None
        }
    }

    /// The score of the first root move.
    pub fn best_score(&self) -> (r: Option<i32>)
        ensures
            r == (if self.root_moves@.len() > 0 {
                Some(self.root_moves@[0].score)
            } else {
                None
            }),
    {
        if self.root_moves.len() > 0 {
            Some(self.root_moves[0].score)
        } else {
            None
        }
    }

    /// The move to play: the one that the last completed iteration settled on, or else the
    /// first root move.
    pub fn answer(&self) -> (r: Option<Move>)
        requires
            self.wf(),
            self.rooted(),
            self.believes(),
        ensures
            r == (if self.root_moves@.len() == 0 {
                None
            } else if self.prev_pv.len > 0 {
                Some(self.prev_pv@[0])
            } else {
                Some(self.root_moves@[0].mv)
            }),
            r matches Some(m) ==> legal::legal(self.root_pos, m),
    {
        proof {
            reveal(Searcher::kept);
            reveal(search::may);
            reveal_with_fuel(line::playable, 2);
        }
        if self.root_moves.len() == 0 {
            return None;
        }
        if self.prev_pv.len > 0 {
            Some(self.prev_pv.moves[0])
        } else {
            Some(self.root_moves[0].mv)
        }
    }

    /// What this thread has to say once it is done: the move, and the score and depth of the
    /// last completed iteration. A thread without one has no opinion.
    pub fn result(&self) -> (r: ThreadResult)
        requires
            self.wf(),
            self.rooted(),
            self.believes(),
        ensures
            r.score == self.prev_score,
            r.depth == (if self.pv_history@.len() > 0 && self.pv_history@.last().depth > 0 {
                self.pv_history@.last().depth as int
            } else {
                0
            }),
            self.root_moves@.len() == 0 ==> r.mv.0 == 0,
            self.root_moves@.len() > 0 ==> legal::legal(self.root_pos, r.mv),
            self.prev_pv.len > 0 && self.root_moves@.len() > 0 ==> r.mv == self.prev_pv@[0],
    {
        let mv = match self.answer() {
            Some(m) => m,
            None => Move::null(),
        };
        let n: usize = self.pv_history.len();
        let depth: i32 = if n > 0 && self.pv_history[n - 1].depth > 0 {
            self.pv_history[n - 1].depth
        } else {
            0
        };
        ThreadResult { mv, score: self.prev_score, depth }
    }

    /// Narrows the root moves to the wanted ones and says what is to be done.
    pub fn prepare(&mut self) -> (r: Prelude)
        requires
            old(self).wf(),
            old(self).rooted(),
        ensures
            final(self).wf(),
            final(self).rooted(),
            final(self).tt == old(self).tt,
            final(self).nodes == 0,
            final(self).cfg == old(self).cfg,
            final(self).budget == old(self).budget,
            final(self).root_pos == old(self).root_pos,
            final(self).prev_pv == old(self).prev_pv,
            final(self).prev_score == old(self).prev_score,
            final(self).pv_history@ == old(self).pv_history@,
            final(self).zobrist_trail@ == old(self).zobrist_trail@,
            final(self).root_moves@ == (if old(self).cfg.limits.perft is Some {
                old(self).root_moves@
            } else {
                wanted(old(self).root_moves@, old(self).cfg.limits.searchmoves@)
            }),
            r == (if let Some(n) = old(self).cfg.limits.perft {
                Prelude::Perft(n)
            } else if old(self).root_moves@.len() == 0 {
                Prelude::NoMoves
            } else if final(self).root_moves@.len() == 0 {
                Prelude::NoMatch
            } else {
                Prelude::Ready
            }),
    {
        proof {
            reveal(Searcher::kept);
        }
        self.nodes = 0;
        if let Some(n) = self.cfg.limits.perft {
            return Prelude::Perft(n);
        }
        if self.root_moves.len() == 0 {
            proof {
                lemma_wanted(self.root_moves@, self.cfg.limits.searchmoves@);
                let w = wanted(self.root_moves@, self.cfg.limits.searchmoves@);
                if w.len() > 0 {
                    assert(self.root_moves@.contains(w[0]));
                }
                assert(w =~= self.root_moves@);
            }
            return Prelude::NoMoves;
        }
        if self.cfg.limits.searchmoves.len() > 0 {
            let ghost rm = self.root_moves@;
            let kept = keep_wanted(&self.root_moves, &self.cfg.limits.searchmoves);
            self.root_moves = kept;
            proof {
                lemma_wanted(rm, self.cfg.limits.searchmoves@);
                assert forall|i: int| 0 <= i < self.root_moves@.len() implies (#[trigger] self.root_moves@[i]).pv.wf()
                    && -INF <= self.root_moves@[i].score <= REACH && Searcher::grows(self.root_pos, self.root_moves@[i]) by {
                    assert(rm.contains(self.root_moves@[i]));
                    let j = choose|j: int| 0 <= j < rm.len() && rm[j] == self.root_moves@[i];
                    assert(rm[j].pv.wf());
                }
            }
            if self.root_moves.len() == 0 {
                return Prelude::NoMatch;
            }
        }
        Prelude::Ready
    }
}

/// A list of the legal moves holds only legal moves.
proof fn lemma_lists_root(rm: Seq<RootMove>, p: Position)
    requires
        lists(rm, p),
    ensures
        forall|i: int| 0 <= i < rm.len() ==> search::may(p, (#[trigger] rm[i]).mv),
{
    assert forall|i: int| 0 <= i < rm.len() implies search::may(p, (#[trigger] rm[i]).mv) by {
        assert(negamax::moves_of(rm)[i] == rm[i].mv);
        assert(negamax::moves_of(rm).contains(rm[i].mv));
    }
}

/// Where the moves stand once those lifted to the front are back where they came from.
pub open spec fn lowered(ms: Seq<Move>, lifts: Seq<usize>) -> Seq<Move>
    decreases lifts.len(),
{
    if lifts.len() == 0 {
        ms
    } else {
        lowered(ms.remove(0).insert(lifts.last() as int, ms[0]), lifts.drop_last())
    }
}

proof fn lemma_lowered_push(ms: Seq<Move>, lifts: Seq<usize>, i: usize)
    requires
        0 <= i < ms.len(),
    ensures
        lowered(ms.remove(i as int).insert(0, ms[i as int]), lifts.push(i)) == lowered(ms, lifts),
{
    let up = ms.remove(i as int).insert(0, ms[i as int]);
    assert(up.remove(0).insert(i as int, up[0]) =~= ms);
    assert(lifts.push(i).drop_last() =~= lifts);
}

/// The window that a node can be searched with, of one that may be open to either side.
pub open spec fn low_of(alpha: int) -> int {
    if alpha < -WINDOW {
        -WINDOW as int
    } else if alpha >= WINDOW {
        WINDOW - 1
    } else {
        alpha
    }
}

/// [`low_of`], above.
pub open spec fn high_of(beta: int) -> int {
    if beta > REACH {
        REACH + 1
    } else if beta <= -WINDOW {
        -WINDOW + 1
    } else {
        beta
    }
}

/// Score `x` lies inside the window.
pub open spec fn framed(alpha: int, beta: int, x: int) -> bool {
    alpha < x < beta
}

/// The level above that of every search of the root.
pub open spec fn roof() -> int {
    MAX_DEPTH + 1
}

/// `w` and `s` remember what search `o` began with in `from`, and what it has added since.
pub open spec fn continues(o: Searcher, from: Origin, w: Worker, s: Searcher) -> bool {
    &&& from.trail == o.zobrist_trail@
    &&& value::heir(o.root_pos, *o.cfg, from, 0, roof(), memory::memory(w, s))
}

/// `x` is a score of the root at `depth`, inside the window that it was searched with, in a
/// search that began with `from`.
#[verifier::opaque]
pub open spec fn root_valued(o: Searcher, from: Origin, depth: int, x: int) -> bool {
    exists|w: Worker, s: Searcher, a: int, b: int| #[trigger]
        value::enters(o.root_pos, *o.cfg, o.zobrist_trail@, w, s) && #[trigger] framed(a, b, x) && same_moves(
            s.root_moves@,
            o.root_moves@,
        ) && !w.is_nmp_verif && continues(o, from, w, s) && value::valued(
            w,
            s,
            NodeType::RootNode,
            depth,
            low_of(a),
            high_of(b),
            0,
            Move(0),
            false,
            x,
        )
}

/// Searches with the same root and the same moves agree on the scores of the root.
proof fn lemma_root_valued(o: Searcher, q: Searcher, from: Origin, depth: int, x: int)
    requires
        root_valued(o, from, depth, x),
        q.cfg == o.cfg,
        q.root_pos == o.root_pos,
        q.zobrist_trail@ == o.zobrist_trail@,
        same_moves(q.root_moves@, o.root_moves@),
    ensures
        root_valued(q, from, depth, x),
{
    reveal(root_valued);
}

/// What continues a search that continues another continues that.
proof fn lemma_continues_on(o: Searcher, from: Origin, a: Worker, s: Searcher, b: Worker, t: Searcher)
    requires
        continues(o, from, a, s),
        s.zobrist_trail@ == o.zobrist_trail@,
        continues(o, memory::origin(a, s), b, t),
    ensures
        continues(o, from, b, t),
{
    memory::lemma_visits_here(o.root_pos, from.trail);
    value::lemma_heir_goes_on(
        o.root_pos,
        *o.cfg,
        from,
        0,
        roof(),
        memory::memory(a, s),
        o.root_pos,
        from.trail,
        0,
        roof(),
        memory::memory(b, t),
    );
}

/// A score of the root in a search that goes on is one in the search from its beginning.
proof fn lemma_root_valued_on(o: Searcher, from: Origin, a: Worker, s: Searcher, depth: int, x: int)
    requires
        continues(o, from, a, s),
        s.zobrist_trail@ == o.zobrist_trail@,
        root_valued(o, memory::origin(a, s), depth, x),
    ensures
        root_valued(o, from, depth, x),
{
    reveal(root_valued);
    let (w, t, c, d) = choose|w: Worker, t: Searcher, c: int, d: int| #[trigger]
        value::enters(o.root_pos, *o.cfg, o.zobrist_trail@, w, t) && #[trigger] framed(c, d, x) && same_moves(
            t.root_moves@,
            o.root_moves@,
        ) && !w.is_nmp_verif && continues(o, memory::origin(a, s), w, t) && value::valued(
            w,
            t,
            NodeType::RootNode,
            depth,
            low_of(c),
            high_of(d),
            0,
            Move(0),
            false,
            x,
        );
    lemma_continues_on(o, from, a, s, w, t);
}

/// A search of the root at `depth` makes worker `b` of worker `a`.
#[verifier::opaque]
pub open spec fn root_searched(p: Position, cfg: SearchConfig, from: Origin, depth: int, a: Worker, b: Worker) -> bool {
    exists|s: Searcher, t: Searcher, alpha: int, beta: int, r: Result<i32, SearchAborted>| #[trigger]
        negamax::marked(a, s, NodeType::RootNode, depth, alpha, beta, 0, Move(0), false, r, b, t) && value::enters(
            p,
            cfg,
            from.trail,
            a,
            s,
        ) && value::heir(p, cfg, from, 0, roof(), memory::memory(a, s)) && b.back(a, 0)
}

/// Searches of the root at the depths of `depths`, one after the other, make worker `b` of
/// worker `a`. Every depth up to `done` is among them.
pub open spec fn campaign(
    p: Position,
    cfg: SearchConfig,
    from: Origin,
    ws: Seq<Worker>,
    depths: Seq<int>,
    a: Worker,
    b: Worker,
    done: int,
) -> bool {
    &&& ws.len() == depths.len() + 1
    &&& ws[0] == a
    &&& ws.last() == b
    &&& forall|i: int| 0 <= i < depths.len() ==> root_searched(p, cfg, from, #[trigger] depths[i], ws[i], ws[i + 1])
    &&& forall|d: int| 1 <= d <= done ==> #[trigger] depths.contains(d)
}

/// Some [`campaign`] makes worker `b` of worker `a`.
#[verifier::opaque]
pub open spec fn campaigned(p: Position, cfg: SearchConfig, from: Origin, a: Worker, b: Worker, done: int) -> bool {
    exists|ws: Seq<Worker>, depths: Seq<int>| #[trigger] campaign(p, cfg, from, ws, depths, a, b, done)
}

proof fn lemma_campaign_starts(p: Position, cfg: SearchConfig, from: Origin, a: Worker)
    ensures
        campaigned(p, cfg, from, a, a, 0),
{
    reveal(campaigned);
    assert(campaign(p, cfg, from, seq![a], Seq::empty(), a, a, 0));
}

/// A further search of the root, at the next depth or at any other.
proof fn lemma_campaign_goes_on(
    p: Position,
    cfg: SearchConfig,
    from: Origin,
    a: Worker,
    b: Worker,
    c: Worker,
    done: int,
    depth: int,
)
    requires
        campaigned(p, cfg, from, a, b, done),
        root_searched(p, cfg, from, depth, b, c),
    ensures
        campaigned(p, cfg, from, a, c, done),
        depth == done + 1 ==> campaigned(p, cfg, from, a, c, depth),
{
    reveal(campaigned);
    let (ws, ds) = choose|ws: Seq<Worker>, ds: Seq<int>| #[trigger] campaign(p, cfg, from, ws, ds, a, b, done);
    let xs = ws.push(c);
    let es = ds.push(depth);
    assert forall|i: int| 0 <= i < es.len() implies root_searched(p, cfg, from, #[trigger] es[i], xs[i], xs[i + 1]) by {
        if i < ds.len() {
            assert(es[i] == ds[i]);
        }
    }
    assert forall|d: int| 1 <= d <= done implies #[trigger] es.contains(d) by {
        let k = choose|k: int| 0 <= k < ds.len() && ds[k] == d;
        assert(ds.contains(d));
        assert(es[k] == d);
    }
    assert(es[ds.len() as int] == depth);
    assert(es.contains(depth));
    assert(campaign(p, cfg, from, xs, es, a, c, done));
    if depth == done + 1 {
        assert(campaign(p, cfg, from, xs, es, a, c, depth));
    }
}

/// What comes before worker `a` leads on to worker `b`, which has searched up to `done`.
pub open spec fn carries_on(o: Searcher, a: Worker, b: Worker, before: int, done: int) -> bool {
    forall|from: Origin, w: Worker| #[trigger]
        campaigned(o.root_pos, *o.cfg, from, w, a, before) && continues(o, from, a, o) ==> campaigned(
            o.root_pos,
            *o.cfg,
            from,
            w,
            b,
            done,
        )
}

/// A search of `o` begins with `from`: its trail and its table, histories `h` and an empty pawn
/// cache.
pub open spec fn begins(o: Searcher, h: History, from: Origin) -> bool {
    &&& from.trail == o.zobrist_trail@
    &&& from.memory.tt == o.tt
    &&& from.memory.history == h
    &&& from.memory.pawn_cache.drawn_from(Set::empty())
}

/// History `h` and the table of `s` are those of a worker that began with `from` and has searched
/// the root of `o` at every depth up to `done`.
pub open spec fn drilled(o: Searcher, from: Origin, s: Searcher, h: History, done: int) -> bool {
    exists|a: Worker, b: Worker| #[trigger]
        campaigned(o.root_pos, *o.cfg, from, a, b, done) && a.history == from.memory.history && b.history == h && continues(
            o,
            from,
            b,
            s,
        )
}

/// Whether no further iteration is worth starting, seen from the main thread.
///
/// The soft limit says so, or a limit on nodes, or a mate that is proven while the clock
/// runs. Helpers go on until they are stopped: they fill the table.
pub open spec fn done_with(s: Searcher, depth: int, elapsed: u64, before: u64) -> bool {
    let l = s.cfg.limits;
    let b = s.budget;
    let last = elapsed - before;
    &&& s.cfg.thread_id == 0
    &&& {
        ||| depth > 1 && l.movetime == 0 && ((b.soft matches Some(x) && elapsed >= x) || (b.hard matches Some(h) && elapsed
            + (if last > 0 {
            last
        } else {
            0
        }) * s.cfg.search_params.tm_iter_scale() / 100 > h))
        ||| depth > 1 && l.softnodes > 0 && s.nodes >= l.softnodes
        ||| b.hard is Some && (s.prev_score >= MATE - 3 || s.prev_score == 2 - MATE)
    }
}

impl<'cfg> Searcher<'cfg> {
    /// The root, the limits and the last result are as they were; the root moves are the
    /// same, in whatever order.
    pub open spec fn onward(self, o: Searcher) -> bool {
        &&& self.cfg == o.cfg
        &&& self.budget == o.budget
        &&& self.root_pos == o.root_pos
        &&& self.zobrist_trail@ == o.zobrist_trail@
        &&& same_moves(self.root_moves@, o.root_moves@)
        &&& self.root_moves@.len() == o.root_moves@.len()
    }

    /// What the last completed iteration found is as it was.
    pub open spec fn recalls(self, o: Searcher) -> bool {
        &&& self.prev_pv == o.prev_pv
        &&& self.prev_score == o.prev_score
        &&& self.pv_history@ == o.pv_history@
    }

    /// [`done_with`].
    pub fn is_done(&self, depth: i32, elapsed: u64, before: u64) -> (r: bool)
        requires
            self.wf(),
        ensures
            r == done_with(*self, depth as int, elapsed, before),
    {
        if self.cfg.thread_id != 0 {
            return false;
        }
        let limits = &self.cfg.limits;
        let last: u64 = elapsed.saturating_sub(before);
        let timed = limits.movetime == 0 && self.budget.should_stop(elapsed, last, &self.cfg.search_params);
        let counted = limits.softnodes > 0 && self.nodes >= limits.softnodes;
        let proven = self.prev_score >= mate_in(3) || self.prev_score == mated_in(2);
        (depth > 1 && (timed || counted)) || (self.budget.is_finite() && proven)
    }

    /// Sorts the root moves by falling score, equals in the order they had.
    fn sort_root(&mut self)
        requires
            old(self).wf(),
            old(self).rooted(),
        ensures
            final(self).wf(),
            final(self).rooted(),
            final(self).tt == old(self).tt,
            final(self).onward(*old(self)),
            final(self).recalls(*old(self)),
            final(self).nodes == old(self).nodes,
            final(self).iter_depth == old(self).iter_depth,
            final(self).root_moves@ == ranked(old(self).root_moves@),
    {
        let ghost s0 = *self;
        let ghost rm = self.root_moves@;
        let n: usize = self.root_moves.len();
        let mut i: usize = 0;
        assert(rm.take(0) =~= Seq::empty());
        assert(ranked(rm.take(0)) + rm.skip(0) =~= rm);
        proof {
            reveal(Searcher::kept);
        }
        while i < n
            invariant
                i <= n,
                n == rm.len(),
                rm == s0.root_moves@,
                s0.wf(),
                self.root_moves@ == ranked(rm.take(i as int)) + rm.skip(i as int),
                self.cfg == s0.cfg,
                self.budget == s0.budget,
                self.root_pos == s0.root_pos,
                self.zobrist_trail@ == s0.zobrist_trail@,
                self.recalls(s0),
                self.nodes == s0.nodes,
                self.iter_depth == s0.iter_depth,
                self.tt == s0.tt,
            decreases n - i,
        {
            let ghost t = ranked(rm.take(i as int));
            proof {
                law_ranking_sorts(rm.take(i as int));
                assert(self.root_moves@.len() == n);
                assert(self.root_moves@[i as int] == rm[i as int]);
            }
            let x: i32 = self.root_moves[i].score;
            let mut j: usize = 0;
            while j < i && self.root_moves[j].score >= x
                invariant
                    j <= i < n,
                    self.root_moves@.len() == n,
                    t.len() == i,
                    self.root_moves@ == t + rm.skip(i as int),
                    forall|k: int| 0 <= k < j ==> (#[trigger] t[k]).score >= x,
                decreases i - j,
            {
                assert(self.root_moves@[j as int] == t[j as int]);
                j = j + 1;
            }
            proof {
                if j < i {
                    assert(self.root_moves@[j as int] == t[j as int]);
                }
                lemma_place_found(t, x as int, j as int);
                assert(rm.take(i + 1).drop_last() =~= rm.take(i as int));
                assert(rm.take(i + 1).last() == rm[i as int]);
            }
            let e = self.root_moves.remove(i);
            self.root_moves.insert(j, e);
            i = i + 1;
            assert(self.root_moves@ =~= ranked(rm.take(i as int)) + rm.skip(i as int));
        }
        proof {
            assert(rm.take(n as int) =~= rm);
            assert(ranked(rm) + rm.skip(n as int) =~= ranked(rm));
            law_ranking_sorts(rm);
            lemma_moves_multiset(self.root_moves@, rm);
            self.lemma_shuffled(s0);
        }
    }

    /// Entries that were in order are so in any order.
    proof fn lemma_shuffled(self, o: Searcher)
        requires
            o.wf(),
            o.rooted(),
            self.cfg == o.cfg,
            self.root_pos == o.root_pos,
            self.tt == o.tt,
            self.prev_pv == o.prev_pv,
            self.prev_score == o.prev_score,
            self.root_moves@.to_multiset() == o.root_moves@.to_multiset(),
        ensures
            self.wf(),
            self.rooted(),
    {
        broadcast use vstd::seq_lib::group_to_multiset_ensures;

        reveal(Searcher::kept);
        let a = self.root_moves@;
        let b = o.root_moves@;
        assert forall|i: int| 0 <= i < a.len() implies (#[trigger] a[i]).pv.wf() && -INF <= a[i].score <= REACH
            && Searcher::grows(self.root_pos, a[i]) by {
            assert(a.contains(a[i]));
            assert(b.to_multiset().contains(a[i]));
            assert(b.contains(a[i]));
            let j = choose|j: int| 0 <= j < b.len() && b[j] == a[i];
            assert(b[j].pv.wf());
        }
    }

    /// Puts the first root move with this score in front, the others in the order they had.
    ///
    /// The move that broke the window goes first in the retry, where being first earns the
    /// full window: one search settles its score and its line.
    fn lift(&mut self, score: i32) -> (at: Option<usize>)
        requires
            old(self).wf(),
            old(self).rooted(),
        ensures
            final(self).wf(),
            final(self).rooted(),
            final(self).tt == old(self).tt,
            final(self).onward(*old(self)),
            final(self).recalls(*old(self)),
            final(self).nodes == old(self).nodes,
            final(self).iter_depth == old(self).iter_depth,
            ({
                let a = old(self).root_moves@;
                let b = final(self).root_moves@;
                match at {
                    Some(i) => {
                        &&& 0 <= i < a.len()
                        &&& a[i as int].score == score
                        &&& forall|j: int| 0 <= j < i ==> (#[trigger] a[j]).score != score
                        &&& b == a.remove(i as int).insert(0, a[i as int])
                    },
                    None => {
                        &&& forall|j: int| 0 <= j < a.len() ==> (#[trigger] a[j]).score != score
                        &&& b == a
                    },
                }
            }),
    {
        let ghost s0 = *self;
        let ghost a = self.root_moves@;
        let n: usize = self.root_moves.len();
        let mut i: usize = 0;
        while i < n && self.root_moves[i].score != score
            invariant
                i <= n,
                n == a.len(),
                *self == s0,
                a == self.root_moves@,
                forall|j: int| 0 <= j < i ==> (#[trigger] a[j]).score != score,
            decreases n - i,
        {
            i = i + 1;
        }
        if i < n {
            let e = self.root_moves.remove(i);
            self.root_moves.insert(0, e);
            proof {
                broadcast use vstd::seq_lib::group_to_multiset_ensures;

                assert(a[i as int].score == score);
                assert(self.root_moves@ == a.remove(i as int).insert(0, a[i as int]));
                assert(a.contains(a[i as int]));
                assert(self.root_moves@.to_multiset() =~= a.to_multiset());
                lemma_moves_multiset(self.root_moves@, a);
                self.lemma_shuffled(s0);
            }
            return Some(i);
        }
        None
    }

    /// Puts the moves that were lifted back where they came from, the last one first.
    fn lower(&mut self, lifts: &Vec<usize>)
        requires
            old(self).wf(),
            old(self).rooted(),
            forall|k: int| 0 <= k < lifts@.len() ==> (#[trigger] lifts@[k]) < old(self).root_moves@.len(),
        ensures
            final(self).wf(),
            final(self).rooted(),
            final(self).tt == old(self).tt,
            final(self).onward(*old(self)),
            final(self).recalls(*old(self)),
            final(self).nodes == old(self).nodes,
            final(self).iter_depth == old(self).iter_depth,
            negamax::moves_of(final(self).root_moves@) == lowered(negamax::moves_of(old(self).root_moves@), lifts@),
    {
        let ghost s0 = *self;
        let mut n: usize = lifts.len();
        assert(lifts@.take(n as int) =~= lifts@);
        while n > 0
            invariant
                n <= lifts@.len(),
                self.wf(),
                self.rooted(),
                self.onward(s0),
                self.recalls(s0),
                self.nodes == s0.nodes,
                self.tt == s0.tt,
                self.iter_depth == s0.iter_depth,
                forall|k: int| 0 <= k < lifts@.len() ==> (#[trigger] lifts@[k]) < s0.root_moves@.len(),
                lowered(negamax::moves_of(self.root_moves@), lifts@.take(n as int)) == lowered(
                    negamax::moves_of(s0.root_moves@),
                    lifts@,
                ),
            decreases n,
        {
            n = n - 1;
            let ghost s1 = *self;
            let ghost a = self.root_moves@;
            let i: usize = lifts[n];
            proof {
                reveal(Searcher::kept);
            }
            let e = self.root_moves.remove(0);
            self.root_moves.insert(i, e);
            proof {
                broadcast use vstd::seq_lib::group_to_multiset_ensures;

                let b = self.root_moves@;
                assert(b == a.remove(0).insert(i as int, a[0]));
                assert(a.contains(a[0]));
                assert(b.to_multiset() =~= a.to_multiset());
                lemma_moves_multiset(b, a);
                self.lemma_shuffled(s1);
                let ms = negamax::moves_of(a);
                assert(negamax::moves_of(b) =~= ms.remove(0).insert(i as int, ms[0]));
                assert(lifts@.take(n + 1).drop_last() =~= lifts@.take(n as int));
                assert(lifts@.take(n + 1).last() == i);
            }
        }
        assert(lifts@.take(0) =~= Seq::<usize>::empty());
    }

    /// Reports a score that left its window, before the retry settles it. A mate is not
    /// reported: it would read as a claim that the search has not made.
    fn note_bound(&mut self, depth: i32, score: i32, upper: bool)
        requires
            old(self).wf(),
            old(self).rooted(),
        ensures
            final(self).wf(),
            final(self).rooted(),
            final(self).tt == old(self).tt,
            final(self).onward(*old(self)),
            final(self).recalls(*old(self)),
            final(self).nodes == old(self).nodes,
            final(self).iter_depth == old(self).iter_depth,
            final(self).root_moves@ == old(self).root_moves@,
            final(self).reports@ == (if old(self).cfg.limits.silent || score >= MATE - 246 || score <= 246 - MATE || old(
                self,
            ).prev_pv.len == 0 {
                old(self).reports@
            } else {
                old(self).reports@.push(Report::Bound { depth, score, upper })
            }),
    {
        if self.cfg.limits.silent || is_mate(score) || self.prev_pv.len == 0 {
            return;
        }
        proof {
            reveal(Searcher::kept);
        }
        self.reports.push(Report::Bound { depth, score, upper });
    }

    /// Forgets the lines of the root moves, so that a line still standing after the
    /// iteration was built by it.
    fn clear_lines(&mut self, depth: i32)
        requires
            old(self).wf(),
            old(self).rooted(),
        ensures
            final(self).wf(),
            final(self).rooted(),
            final(self).tt == old(self).tt,
            final(self).onward(*old(self)),
            final(self).recalls(*old(self)),
            final(self).nodes == old(self).nodes,
            final(self).iter_depth == depth,
            negamax::moves_of(final(self).root_moves@) == negamax::moves_of(old(self).root_moves@),
            forall|i: int| 0 <= i < final(self).root_moves@.len() ==> (#[trigger] final(self).root_moves@[i]).pv.len == 0,
    {
        let ghost s0 = *self;
        let n: usize = self.root_moves.len();
        proof {
            reveal(Searcher::kept);
        }
        self.iter_depth = depth;
        let mut i: usize = 0;
        while i < n
            invariant
                i <= n,
                n == self.root_moves@.len(),
                n == s0.root_moves@.len(),
                s0.wf(),
                s0.rooted(),
                self.cfg == s0.cfg,
                self.budget == s0.budget,
                self.root_pos == s0.root_pos,
                self.zobrist_trail@ == s0.zobrist_trail@,
                self.recalls(s0),
                self.nodes == s0.nodes,
                self.tt == s0.tt,
                self.iter_depth == depth,
                forall|j: int|
                    0 <= j < n ==> (#[trigger] self.root_moves@[j]).mv == s0.root_moves@[j].mv && self.root_moves@[j].score
                        == s0.root_moves@[j].score,
                forall|j: int| 0 <= j < i ==> (#[trigger] self.root_moves@[j]).pv.len == 0,
                forall|j: int| i <= j < n ==> (#[trigger] self.root_moves@[j]) == s0.root_moves@[j],
            decreases n - i,
        {
            self.root_moves[i].pv.len = 0;
            i = i + 1;
        }
        proof {
            assert(negamax::moves_of(self.root_moves@) =~= negamax::moves_of(s0.root_moves@));
            assert forall|j: int| 0 <= j < n implies Searcher::grows(self.root_pos, #[trigger] self.root_moves@[j]) by {
                assert(Searcher::grows(s0.root_pos, s0.root_moves@[j]));
            }
        }
    }

    /// One iteration in a window around the last score. A score rarely lurches between
    /// iterations, and tighter bounds prune far more. A score that escapes says which way
    /// the window was wrong, and each retry widens it.
    fn widen(&mut self, worker: &mut Worker, depth: i32) -> (r: Result<i32, SearchAborted>)
        requires
            old(self).wf(),
            old(self).rooted(),
            old(self).root_moves@.len() > 0,
            old(worker).wf(),
            old(worker).pos == old(self).root_pos,
            !old(worker).is_nmp_verif,
            1 <= depth <= MAX_DEPTH,
            old(self).iter_depth == depth,
        ensures
            final(self).wf(),
            final(self).rooted(),
            final(self).onward(*old(self)),
            final(self).recalls(*old(self)),
            final(self).iter_depth == depth,
            final(worker).wf(),
            final(worker).pos == old(worker).pos,
            !final(worker).is_nmp_verif,
            continues(*old(self), memory::origin(*old(worker), *old(self)), *final(worker), *final(self)),
            final(worker).history.grown(old(worker).history),
            carries_on(*old(self), *old(worker), *final(worker), depth - 1, if r is Ok {
                depth as int
            } else {
                depth - 1
            }),
            r is Err ==> depth > 1,
            // The order that the last completed iteration left still stands.
            r is Err ==> negamax::moves_of(final(self).root_moves@) == negamax::moves_of(old(self).root_moves@),
            r matches Ok(x) ==> {
                &&& -REACH <= x <= REACH
                &&& root_valued(*old(self), memory::origin(*old(worker), *old(self)), depth as int, x as int)
                &&& !search::drawn(old(self).root_pos) ==> exists|k: int| #[trigger]
                    loops::leads(
                        final(self).root_moves@,
                        old(self).root_pos,
                        old(self).root_moves@.len() as int,
                        k,
                        x as int,
                    )
            },
    {
        let ghost s0 = *self;
        let ghost w0 = *worker;
        let ghost o = memory::origin(w0, s0);
        proof {
            value::lemma_heir_starts(s0.root_pos, *s0.cfg, o, 0, roof());
        }
        let sp = &self.cfg.search_params;
        let bracketed = depth >= sp.asp_depth();
        let widen_div: i32 = sp.asp_widen_div();
        let mut delta: i32 = sp.asp_initial();
        proof {
            reveal(Searcher::kept);
        }
        let mut alpha: i32 = if bracketed && self.prev_score - delta > -INF {
            self.prev_score - delta
        } else {
            -INF
        };
        let mut beta: i32 = if bracketed && self.prev_score + delta < INF {
            self.prev_score + delta
        } else {
            INF
        };
        let mut lifts: Vec<usize> = Vec::new();
        loop
            invariant
                self.wf(),
                self.rooted(),
                self.onward(s0),
                self.recalls(s0),
                self.iter_depth == depth,
                forall|k: int| 0 <= k < lifts@.len() ==> (#[trigger] lifts@[k]) < s0.root_moves@.len(),
                lowered(negamax::moves_of(self.root_moves@), lifts@) == negamax::moves_of(s0.root_moves@),
                s0 == *old(self),
                w0 == *old(worker),
                s0.root_moves@.len() > 0,
                worker.wf(),
                worker.pos == w0.pos,
                worker.history.grown(w0.history),
                !worker.is_nmp_verif,
                o == memory::origin(w0, s0),
                continues(s0, o, *worker, *self),
                carries_on(s0, w0, *worker, depth - 1, depth - 1),
                w0.pos == s0.root_pos,
                1 <= depth <= MAX_DEPTH,
                -INF <= alpha < beta <= INF,
                1 <= delta <= 200_000,
                1 <= widen_div <= 14,
            decreases (alpha + INF) + (INF - beta),
        {
            // No score lies outside the window that a node can be searched with.
            let lo: i32 = if alpha < -WINDOW {
                -WINDOW
            } else if alpha >= WINDOW {
                WINDOW - 1
            } else {
                alpha
            };
            let hi: i32 = if beta > REACH {
                REACH + 1
            } else if beta <= -WINDOW {
                -WINDOW + 1
            } else {
                beta
            };
            let ghost s1 = *self;
            let ghost w1 = *worker;
            let out = worker.negamax(self, NodeType::RootNode, depth, lo, hi, 0, Move::null(), false);
            proof {
                let p = s0.root_pos;
                let cfg = *s0.cfg;
                assert(value::enters(p, cfg, s0.zobrist_trail@, w1, s1)) by {
                    reveal(value::enters);
                }
                assert forall|from: Origin, w: Worker| #[trigger]
                    campaigned(p, cfg, from, w, w0, depth - 1) && continues(s0, from, w0, s0) implies campaigned(
                    p,
                    cfg,
                    from,
                    w,
                    *worker,
                    depth - 1,
                ) && campaigned(p, cfg, from, w, *worker, depth as int) by {
                    lemma_continues_on(s0, from, w0, s0, w1, s1);
                    assert(root_searched(p, cfg, from, depth as int, w1, *worker)) by {
                        reveal(root_searched);
                    }
                    lemma_campaign_goes_on(p, cfg, from, w, w1, *worker, depth - 1, depth as int);
                }
                value::lemma_heir_wider(
                    p,
                    cfg,
                    memory::origin(w1, s1),
                    0,
                    value::height(depth as int) + 1,
                    roof(),
                    memory::memory(*worker, *self),
                );
                lemma_continues_on(s0, o, w1, s1, *worker, *self);
            }
            let score: i32 = match out {
                Ok(x) => x,
                Err(e) => {
                    proof {
                        lemma_same_length(self.root_moves@, s1.root_moves@);
                    }
                    // The half-finished list is not ranked: the order that the last completed
                    // iteration left still stands.
                    self.lower(&lifts);
                    return Err(e);
                },
            };
            proof {
                lemma_same_length(self.root_moves@, s1.root_moves@);
            }
            if score <= alpha {
                self.note_bound(depth, score, true);
                alpha = if score - delta > -INF {
                    score - delta
                } else {
                    -INF
                };
            } else if score >= beta {
                self.note_bound(depth, score, false);
                let ghost a = self.root_moves@;
                if let Some(i) = self.lift(score) {
                    proof {
                        let ms = negamax::moves_of(a);
                        lemma_lowered_push(ms, lifts@, i);
                        assert(negamax::moves_of(self.root_moves@) =~= ms.remove(i as int).insert(0, ms[i as int]));
                    }
                    lifts.push(i);
                }
                beta = if score + delta < INF {
                    score + delta
                } else {
                    INF
                };
            } else {
                proof {
                    reveal(root_valued);
                    reveal(value::enters);
                    assert(value::enters(s0.root_pos, *s0.cfg, s0.zobrist_trail@, w1, s1));
                    assert(framed(alpha as int, beta as int, score as int));
                }
                return Ok(score);
            }
            if delta < 100_000 {
                delta = delta + delta / widen_div;
            }
        }
    }
}

/// Lists with the same moves in the same order are of one length.
proof fn lemma_same_length(a: Seq<RootMove>, b: Seq<RootMove>)
    requires
        negamax::moves_of(a) == negamax::moves_of(b),
    ensures
        a.len() == b.len(),
        same_moves(a, b),
{
    assert(negamax::moves_of(a).len() == a.len());
    assert(negamax::moves_of(b).len() == b.len());
}

impl<'cfg> Searcher<'cfg> {
    /// What a completed iteration leaves: the list sorted, its head believed and recorded.
    pub open spec fn concluded(self, depth: int) -> bool {
        &&& falling(self.root_moves@)
        &&& self.prev_pv == self.root_moves@[0].pv
        &&& self.prev_score == self.root_moves@[0].score
        &&& self.pv_history@.len() <= SNAPSHOTS
        &&& self.pv_history@.len() > 0
        &&& self.pv_history@.last().depth == depth
        &&& self.pv_history@.last().score == self.prev_score
        &&& self.pv_history@.last().line == self.prev_pv
        &&& !search::drawn(self.root_pos) ==> {
            &&& self.prev_pv.len >= 1
            &&& self.prev_pv@[0] == self.root_moves@[0].mv
            &&& line::playable(self.root_pos, self.prev_pv@)
        }
    }

    /// Tries another iteration.
    ///
    /// Only the main thread decides that no further iteration is worth starting; any thread
    /// stops where it is told to. The first iteration is always completed.
    pub fn deepen(&mut self, d: &mut Deepening) -> (r: Attempt)
        requires
            old(self).wf(),
            old(self).rooted(),
            old(self).believes(),
            old(self).pv_history@.len() <= SNAPSHOTS,
            old(self).root_moves@.len() > 0,
            old(d).fits(*old(self)),
        ensures
            final(self).wf(),
            final(self).rooted(),
            final(self).believes(),
            final(self).onward(*old(self)),
            final(self).pv_history@.len() <= SNAPSHOTS,
            final(d).fits(*final(self)),
            final(d).limit == old(d).limit,
            final(d).worker.history.grown(old(d).worker.history),
            carries_on(*old(self), old(d).worker, final(d).worker, old(d).depth - 1, final(d).depth - 1),
            continues(*old(self), memory::origin(old(d).worker, *old(self)), final(d).worker, *final(self)),
            old(d).depth > old(d).limit ==> r is Finished,
            old(d).depth == 1 && old(d).limit >= 1 && old(self).prev_score == -INF ==> r is Completed,
            // Short of the limit, the first iteration is only left out where it is not worth
            // starting.
            r is Finished && old(d).depth == 1 && old(d).limit >= 1 ==> exists|elapsed: u64| #[trigger]
                done_with(*final(self), 1, elapsed, old(d).last_elapsed),
            match r {
                Attempt::Finished | Attempt::Aborted => {
                    &&& final(self).recalls(*old(self))
                    &&& final(d).depth == old(d).depth
                    &&& negamax::moves_of(final(self).root_moves@) == negamax::moves_of(old(self).root_moves@)
                    &&& old(d).depth <= old(d).limit ==> final(self).iter_depth == old(d).depth
                    &&& r is Aborted ==> 1 < old(d).depth <= old(d).limit
                },
                Attempt::Completed(it) => {
                    &&& old(d).depth <= old(d).limit
                    &&& final(d).depth == old(d).depth + 1
                    &&& final(self).concluded(old(d).depth as int)
                    &&& !search::drawn(old(self).root_pos) ==> root_valued(
                        *final(self),
                        memory::origin(old(d).worker, *old(self)),
                        old(d).depth as int,
                        final(self).prev_score as int,
                    )
                    &&& final(self).iter_depth == old(d).depth
                    &&& it.depth == old(d).depth
                    &&& it.root_moves == final(self).root_moves@.len()
                    &&& it.best_nodes == final(self).root_moves@[0].nodes
                    &&& it.total_nodes == final(self).nodes
                    &&& it.score == final(self).prev_score
                    &&& it.prev_score == old(self).prev_score
                    &&& it.best_move_changed == (old(self).prev_pv.len > 0 && final(self).root_moves@[0].mv
                        != old(self).prev_pv@[0])
                },
            },
    {
        let depth: i32 = d.depth;
        proof {
            value::lemma_heir_starts(self.root_pos, *self.cfg, memory::origin(d.worker, *self), 0, roof());
        }
        if depth > d.limit {
            return Attempt::Finished;
        }
        let ghost s0 = *self;
        self.enter_iteration(depth);
        let elapsed: u64 = elapsed_ms(&self.cfg.start_time);
        if self.is_done(depth, elapsed, d.last_elapsed) {
            return Attempt::Finished;
        }
        d.last_elapsed = elapsed;
        if self.check_signals() {
            return Attempt::Finished;
        }
        self.clear_lines(depth);
        let ghost s2 = *self;
        assert(memory::origin(d.worker, s2) == memory::origin(d.worker, s0));
        let ghost o = memory::origin(d.worker, s2);
        let ghost w2 = d.worker;
        let _score: i32 = match self.widen(&mut d.worker, depth) {
            Ok(x) => x,
            Err(_) => {
                return Attempt::Aborted;
            },
        };
        let ghost s1 = *self;
        self.sort_root();
        proof {
            law_ranking_sorts(s1.root_moves@);
            if !search::drawn(self.root_pos) {
                let x = _score as int;
                let k = choose|k: int| #[trigger]
                    loops::leads(s1.root_moves@, self.root_pos, s1.root_moves@.len() as int, k, x);
                assert(loops::leads(s1.root_moves@, self.root_pos, s1.root_moves@.len() as int, k, x));
                law_the_leader_goes_first(s1.root_moves@, k);
                assert(self.root_moves@[0] == s1.root_moves@[k]);
            }
        }
        let it = self.conclude_iteration(depth);
        proof {
            if !search::drawn(self.root_pos) {
                lemma_root_valued(s2, *self, o, depth as int, _score as int);
            }
        }
        d.depth = depth + 1;
        Attempt::Completed(it)
    }

    /// Notes which iteration runs.
    fn enter_iteration(&mut self, depth: i32)
        requires
            old(self).wf(),
            old(self).rooted(),
        ensures
            final(self).wf(),
            final(self).rooted(),
            final(self).tt == old(self).tt,
            final(self).onward(*old(self)),
            final(self).recalls(*old(self)),
            final(self).nodes == old(self).nodes,
            final(self).iter_depth == depth,
            final(self).root_moves@ == old(self).root_moves@,
    {
        proof {
            reveal(Searcher::kept);
        }
        self.iter_depth = depth;
    }

    /// Records the head of the sorted list.
    fn conclude_iteration(&mut self, depth: i32) -> (it: Iteration)
        requires
            old(self).wf(),
            old(self).rooted(),
            old(self).root_moves@.len() > 0,
            falling(old(self).root_moves@),
            old(self).pv_history@.len() <= SNAPSHOTS,
            !search::drawn(old(self).root_pos) ==> {
                let e = old(self).root_moves@[0];
                e.pv.len >= 1 && e.pv@[0] == e.mv && line::playable(old(self).root_pos, e.pv@)
            },
        ensures
            final(self).wf(),
            final(self).rooted(),
            final(self).believes(),
            final(self).tt == old(self).tt,
            final(self).onward(*old(self)),
            final(self).nodes == old(self).nodes,
            final(self).iter_depth == old(self).iter_depth,
            final(self).root_moves@ == old(self).root_moves@,
            final(self).concluded(depth as int),
            it.depth == depth,
            it.root_moves == old(self).root_moves@.len(),
            it.best_nodes == old(self).root_moves@[0].nodes,
            it.total_nodes == old(self).nodes,
            it.score == old(self).root_moves@[0].score,
            it.prev_score == old(self).prev_score,
            it.best_move_changed == (old(self).prev_pv.len > 0 && old(self).prev_pv@[0] != old(self).root_moves@[0].mv),
    {
        proof {
            reveal(Searcher::kept);
            assert(Searcher::grows(self.root_pos, self.root_moves@[0]));
        }
        let best = self.root_moves[0];
        let changed = match self.prev_pv.get(0) {
            Some(prev) => prev != best.mv,
            None => false,
        };
        let it = Iteration {
            depth,
            best_move_changed: changed,
            root_moves: self.root_moves.len(),
            best_nodes: best.nodes,
            total_nodes: self.nodes,
            score: best.score,
            prev_score: self.prev_score,
        };
        self.prev_pv = best.pv;
        self.prev_score = best.score;
        let now: u64 = elapsed_ms(&self.cfg.start_time);
        let time_ms: u64 = if now < 1 {
            1
        } else {
            now
        };
        self.pv_history.push(PvSnapshot { depth, time_ms, score: best.score, line: best.pv });
        if self.pv_history.len() > SNAPSHOTS {
            let _ = self.pv_history.remove(0);
        }
        it
    }

    /// A search with nothing searched yet.
    pub fn start(&self, history: History) -> (d: Deepening)
        requires
            self.wf(),
            self.root_pos.wf(),
            history.wf(),
        ensures
            d.fits(*self),
            d.depth == 1,
            d.limit == depth_wanted(self.cfg.limits),
            d.last_elapsed == 0,
            d.worker.history == history.under(self.cfg.search_params),
            d.worker.pawn_cache.drawn_from(Set::empty()),
    {
        let mut h = history;
        h.caps = HistoryCaps::from_params(&self.cfg.search_params);
        let limit: i32 = depth_limit(&self.cfg.limits);
        Deepening { worker: Worker::new(&self.root_pos, h), depth: 1, limit, last_elapsed: 0 }
    }

    /// Searches depth 1, then 2, then 3, until a limit says stop. What was learned of moves
    /// comes back in `history`.
    ///
    /// Whatever stops the search, a move that it looked at is there afterwards, with a line
    /// that can be played: the first iteration is always completed.
    pub fn iterative_deepening(&mut self, history: &mut History)
        requires
            old(self).wf(),
            old(self).rooted(),
            old(self).root_pos.wf(),
            old(self).believes(),
            old(self).pv_history@.len() <= SNAPSHOTS,
            old(history).wf(),
        ensures
            final(self).wf(),
            final(self).rooted(),
            final(self).believes(),
            final(self).cfg == old(self).cfg,
            final(self).root_pos == old(self).root_pos,
            final(history).wf(),
            // Where nothing is searched, nothing is learned.
            old(self).cfg.limits.perft is Some || wanted(
                old(self).root_moves@,
                old(self).cfg.limits.searchmoves@,
            ).len() == 0 ==> *final(history) == old(history).under(old(self).cfg.search_params),
            final(history).grown(old(history).under(old(self).cfg.search_params)),
            old(self).cfg.limits.perft is None && wanted(
                old(self).root_moves@,
                old(self).cfg.limits.searchmoves@,
            ).len() > 0 ==> exists|from: Origin, done: int|
                begins(*old(self), old(history).under(old(self).cfg.search_params), from) && #[trigger] drilled(
                    *old(self),
                    from,
                    *final(self),
                    *final(history),
                    done,
                ),
            old(self).cfg.limits.perft is None ==> same_moves(
                final(self).root_moves@,
                wanted(old(self).root_moves@, old(self).cfg.limits.searchmoves@),
            ),
            old(self).prev_score == -INF && old(self).cfg.limits.perft is None && wanted(
                old(self).root_moves@,
                old(self).cfg.limits.searchmoves@,
            ).len() > 0 && depth_wanted(old(self).cfg.limits) >= 1 && !search::drawn(old(self).root_pos) ==> {
                let last = final(self).pv_history@.last();
                &&& final(self).prev_pv.len >= 1
                &&& line::playable(final(self).root_pos, final(self).prev_pv@)
                // The move in front is the one that the line starts with.
                &&& final(self).root_moves@.len() > 0
                &&& final(self).root_moves@[0].mv == final(self).prev_pv@[0]
                // The score is one of the root at the depth reached.
                &&& final(self).pv_history@.len() > 0
                &&& last.line == final(self).prev_pv
                &&& last.score == final(self).prev_score
                // What was learned is what the iterations up to that depth taught.
                &&& exists|from: Origin| #[trigger]
                    begins(*old(self), old(history).under(old(self).cfg.search_params), from) && root_valued(
                        *final(self),
                        from,
                        last.depth as int,
                        final(self).prev_score as int,
                    ) && drilled(*old(self), from, *final(self), *final(history), last.depth as int)
                // Short of the limit, a further iteration was entered and given up.
                &&& 1 <= last.depth <= depth_wanted(old(self).cfg.limits)
                &&& last.depth < depth_wanted(old(self).cfg.limits) ==> final(self).iter_depth == last.depth + 1
            },
    {
        history.caps = HistoryCaps::from_params(&self.cfg.search_params);
        let ghost h0 = *history;
        match self.prepare() {
            Prelude::Ready => {},
            _ => {
                return;
            },
        }
        let ghost s1 = *self;
        let mut h = History::new();
        std::mem::swap(&mut h, history);
        let mut d = self.start(h);
        let ghost w0 = d.worker;
        let ghost o = memory::origin(w0, s1);
        proof {
            lemma_campaign_starts(s1.root_pos, *s1.cfg, o, w0);
            value::lemma_heir_starts(s1.root_pos, *s1.cfg, o, 0, roof());
        }
        let mut go = true;
        while go
            invariant
                self.wf(),
                self.rooted(),
                self.believes(),
                self.onward(s1),
                self.root_moves@.len() > 0,
                self.pv_history@.len() <= SNAPSHOTS,
                d.fits(*self),
                d.limit == depth_wanted(s1.cfg.limits),
                history.wf(),
                d.worker.history.grown(h0),
                w0.history == h0,
                o == memory::origin(w0, s1),
                campaigned(s1.root_pos, *s1.cfg, o, w0, d.worker, d.depth - 1),
                continues(s1, o, d.worker, *self),
                d.depth == 1 ==> self.prev_score == s1.prev_score,
                d.depth == 1 && !go ==> d.limit < 1 || s1.prev_score != -INF,
                1 <= d.depth,
                d.depth > 1 ==> {
                    let last = self.pv_history@.last();
                    &&& self.pv_history@.len() > 0
                    &&& last.depth == d.depth - 1
                    &&& last.depth <= d.limit
                    &&& last.line == self.prev_pv
                    &&& last.score == self.prev_score
                },
                d.depth > 1 && !search::drawn(s1.root_pos) ==> {
                    &&& self.prev_pv.len >= 1
                    &&& self.root_moves@[0].mv == self.prev_pv@[0]
                    &&& root_valued(*self, o, d.depth - 1, self.prev_score as int)
                },
                !go ==> d.depth > d.limit || self.iter_depth == d.depth,
            decreases if go {
                1int
            } else {
                0
            }, d.limit + 1 - d.depth,
        {
            let ghost before = *self;
            let ghost at = d.depth;
            let ghost wb = d.worker;
            let attempt = self.deepen(&mut d);
            proof {
                lemma_continues_on(s1, o, wb, before, d.worker, *self);
            }
            match attempt {
                Attempt::Completed(_) => {
                    proof {
                        if !search::drawn(s1.root_pos) {
                            lemma_root_valued_on(*self, o, wb, before, at as int, self.prev_score as int);
                        }
                    }
                },
                _ => {
                    proof {
                        assert(negamax::moves_of(self.root_moves@)[0] == negamax::moves_of(before.root_moves@)[0]);
                        if at > 1 && !search::drawn(s1.root_pos) {
                            lemma_root_valued(before, *self, o, at - 1, self.prev_score as int);
                        }
                    }
                    go = false;
                },
            }
        }
        proof {
            reveal(Worker::kept);
            assert(h0 == old(history).under(old(self).cfg.search_params));
            assert(begins(*old(self), old(history).under(old(self).cfg.search_params), o));
            assert(drilled(*old(self), o, *self, d.worker.history, d.depth - 1));
            if d.depth > 1 {
                assert(self.pv_history@.last().depth == d.depth - 1);
            }
        }
        std::mem::swap(&mut d.worker.history, history);
    }
}

/// The trail ends with the root's own key and holds, before it, the keys of the positions since
/// the last move that cannot be taken back, and of no others.
pub proof fn law_the_trail_reaches_back_to_the_last_irreversible_move(history: Seq<u64>, clock: int, key: u64)
    requires
        clock >= 0,
    ensures
        trail_of(history, clock, key).last() == key,
        forall|i: int|
            0 <= i < history.len() && history.len() - i <= clock ==> trail_of(history, clock, key).contains(#[trigger] history[i]),
        trail_of(history, clock, key).len() <= clock + 1,
        trail_of(history, clock, key).len() == clock + 1 || trail_of(history, clock, key) == history.push(key),
        forall|k: int|
            1 <= k < trail_of(history, clock, key).len() ==> #[trigger] trail_of(history, clock, key)[trail_of(history, clock, key).len()
                - 1 - k] == history[history.len() - k],
{
    let t = trail_of(history, clock, key);
    let keep = t.len() - 1;
    assert forall|i: int| 0 <= i < history.len() && history.len() - i <= clock implies t.contains(#[trigger] history[i]) by {
        assert(t[i - (history.len() - keep)] == history[i]);
    }
    if t.len() != clock + 1 {
        assert(t =~= history.push(key));
    }
}

/// A search goes as deep as it is asked to, a mate in some moves taking two plies for each of
/// them, and never deeper than there is room.
pub proof fn law_a_search_goes_as_deep_as_asked(limits: Limits)
    ensures
        depth_wanted(limits) <= MAX_DEPTH,
        limits.mate is None && 0 < limits.depth <= MAX_DEPTH ==> depth_wanted(limits) == limits.depth,
        limits.mate is None && (limits.depth <= 0 || limits.depth > MAX_DEPTH) ==> depth_wanted(limits) == MAX_DEPTH,
        limits.mate matches Some(m) ==> (0 < 2 * m <= MAX_DEPTH ==> depth_wanted(limits) == 2 * m),
        limits.mate matches Some(m) ==> (2 * m > MAX_DEPTH ==> depth_wanted(limits) == MAX_DEPTH),
        limits.mate matches Some(m) ==> (m <= 0 ==> depth_wanted(limits) == 0),
{
}

/// A fixed time per move is the whole of the budget, but for the overhead; an unlimited search and
/// one by the clock start without a budget.
pub proof fn law_a_fixed_time_is_the_budget(limits: Limits, overhead: u64)
    ensures
        !limits.infinite && limits.movetime > overhead ==> {
            let b = preset(limits, overhead as int);
            b.soft == b.hard && b.soft is Some && b.soft->0 + overhead == limits.movetime
        },
        limits.infinite || limits.movetime == 0 ==> preset(limits, overhead as int) == (Budget { soft: None, hard: None }),
{
}

/// Helpers never end a search; the first iteration is not ended by time or nodes; a fixed time is
/// used up; an iteration that was worth ending stays so as time goes by; and the soft limit, the
/// soft node limit or a proven mate on the clock ends the search of the main thread.
pub proof fn law_what_ends_a_search(s: Searcher, depth: int, elapsed: u64, later: u64, before: u64)
    requires
        s.wf(),
        elapsed <= later,
    ensures
        s.cfg.thread_id != 0 ==> !done_with(s, depth, elapsed, before),
        depth <= 1 && s.budget.hard is None ==> !done_with(s, depth, elapsed, before),
        s.cfg.limits.movetime > 0 && s.cfg.limits.softnodes == 0 && s.budget.hard is None ==> !done_with(
            s,
            depth,
            elapsed,
            before,
        ),
        done_with(s, depth, elapsed, before) ==> done_with(s, depth, later, before),
        s.cfg.thread_id == 0 && depth > 1 && s.cfg.limits.movetime == 0 && (s.budget.soft matches Some(x) && elapsed >= x)
            ==> done_with(s, depth, elapsed, before),
        s.cfg.thread_id == 0 && depth > 1 && s.cfg.limits.softnodes > 0 && s.nodes >= s.cfg.limits.softnodes ==> done_with(
            s,
            depth,
            elapsed,
            before,
        ),
        s.cfg.thread_id == 0 && depth > 1 && s.cfg.limits.movetime == 0 && (s.budget.hard matches Some(x) && elapsed > x)
            ==> done_with(s, depth, elapsed, before),
        s.cfg.thread_id == 0 && s.budget.hard is Some && s.prev_score == MATE - 1 ==> done_with(s, depth, elapsed, before),
        s.prev_score == 0 && s.budget.soft is None && s.budget.hard is None && s.cfg.limits.softnodes == 0 ==> !done_with(
            s,
            depth,
            elapsed,
            before,
        ),
{
    let k = s.cfg.search_params.tm_iter_scale() as int;
    let a = if elapsed > before {
        elapsed - before
    } else {
        0
    };
    let b = if later > before {
        later - before
    } else {
        0
    };
    assert(0 <= a * k <= b * k) by (nonlinear_arith)
        requires
            0 <= a <= b,
            k >= 0,
    ;
}

/// Only the moves that are asked for are searched, and all of those that are legal.
pub proof fn law_only_wanted_moves_are_searched(rm: Seq<RootMove>, moves: Seq<Move>)
    ensures
        moves.len() == 0 ==> wanted(rm, moves) == rm,
        moves.len() > 0 ==> forall|x: RootMove| #[trigger]
            wanted(rm, moves).contains(x) <==> rm.contains(x) && moves.contains(x.mv),
{
    if moves.len() > 0 {
        let f = |x: RootMove| moves.contains(x.mv);
        let w = wanted(rm, moves);
        assert(w == rm.filter(f));
        assert forall|x: RootMove| #[trigger] w.contains(x) <==> rm.contains(x) && moves.contains(x.mv) by {
            if w.contains(x) {
                let i = choose|i: int| 0 <= i < w.len() && w[i] == x;
                rm.lemma_filter_pred(f, i);
                rm.lemma_filter_contains_rev(f, x);
            }
            if rm.contains(x) && moves.contains(x.mv) {
                let i = choose|i: int| 0 <= i < rm.len() && rm[i] == x;
                assert(f(rm[i]));
                rm.lemma_filter_contains(f, i);
            }
        }
    }
}

/// A window that a node can be searched with is searched as it is, and one that is open is cut to
/// what a score can be.
pub proof fn law_open_windows_are_cut(alpha: int, beta: int)
    ensures
        -WINDOW <= alpha < WINDOW ==> low_of(alpha) == alpha,
        -WINDOW < beta <= REACH ==> high_of(beta) == beta,
        alpha < -WINDOW ==> low_of(alpha) == -WINDOW,
        beta > REACH ==> high_of(beta) > REACH,
        -WINDOW <= low_of(alpha) < WINDOW,
        -WINDOW < high_of(beta),
        alpha < beta && alpha < WINDOW && beta > -WINDOW ==> low_of(alpha) < high_of(beta),
{
}

/// A move that comes last and scores no more than any other stays last, and one that scores more
/// than all goes first: equals keep the order they had.
pub proof fn law_equals_keep_their_order(s: Seq<RootMove>, x: RootMove)
    ensures
        (forall|i: int| 0 <= i < s.len() ==> (#[trigger] s[i]).score >= x.score) ==> ranked(s.push(x)) == ranked(s).push(x),
        (forall|i: int| 0 <= i < s.len() ==> (#[trigger] s[i]).score < x.score) ==> ranked(s.push(x)) == seq![x] + ranked(s),
{
    let r = ranked(s);
    assert(s.push(x).drop_last() =~= s);
    lemma_place(r, x.score as int);
    lemma_ranked_from(s);
    let k = place_of(r, x.score as int);
    if (forall|i: int| 0 <= i < s.len() ==> (#[trigger] s[i]).score >= x.score) && k < r.len() {
        let j = choose|j: int| 0 <= j < s.len() && s[j] == r[k];
        assert(s[j].score >= x.score);
    }
    if (forall|i: int| 0 <= i < s.len() ==> (#[trigger] s[i]).score < x.score) && k > 0 {
        let j = choose|j: int| 0 <= j < s.len() && s[j] == r[0];
        assert(s[j].score < x.score);
    }
    if k == r.len() {
        assert(r.insert(k, x) =~= r.push(x));
    }
    if k == 0 {
        assert(r.insert(k, x) =~= seq![x] + r);
    }
}

/// Every entry of the ranked list is one of the list.
proof fn lemma_ranked_from(s: Seq<RootMove>)
    ensures
        ranked(s).len() == s.len(),
        forall|i: int| 0 <= i < ranked(s).len() ==> exists|j: int| 0 <= j < s.len() && s[j] == #[trigger] ranked(s)[i],
    decreases s.len(),
{
    if s.len() > 0 {
        let t = s.drop_last();
        lemma_ranked_from(t);
        let r = ranked(t);
        let k = place_of(r, s.last().score as int);
        lemma_place(r, s.last().score as int);
        assert forall|i: int| 0 <= i < ranked(s).len() implies exists|j: int| 0 <= j < s.len() && s[j] == #[trigger] ranked(s)[i] by {
            if i == k {
                assert(s[s.len() - 1] == ranked(s)[i]);
            } else {
                let m = if i < k {
                    i
                } else {
                    i - 1
                };
                assert(ranked(s)[i] == r[m]);
                let j = choose|j: int| 0 <= j < t.len() && t[j] == r[m];
                assert(s[j] == ranked(s)[i]);
            }
        }
    }
}

} // verus!
