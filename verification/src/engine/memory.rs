//! What a search remembers between its nodes, and where it comes from.

use vstd::prelude::*;

use crate::chess::moves::Move;
use crate::chess::position::Position;
use crate::chess::types::{PieceType, Square};
use crate::engine::history::History;
use crate::engine::line;
use crate::engine::pawns::{PawnCache, PawnEntry};
use crate::engine::search::{self, Searcher, Stack, Worker};
use crate::engine::step;
use crate::engine::tt::TranspositionTable;

verus! {

/// What the nodes of a search read and write.
pub struct Memory {
    pub tt: TranspositionTable,
    pub history: History,
    pub pawn_cache: PawnCache,
    /// What is marked on the way from the root.
    pub marks: Seq<Mark>,
}

/// What a node marks at its ply: the man it moves and where to, and its static evaluation.
pub struct Mark {
    pub pt: PieceType,
    pub to: Square,
    pub eval: i32,
}

/// The marks on a stack.
pub open spec fn marks(stack: Seq<Stack>) -> Seq<Mark> {
    Seq::new(stack.len(), |j: int| Mark { pt: stack[j].moved_pt, to: stack[j].moved_to, eval: stack[j].static_eval })
}

/// What a node is entered with beside its position: the keys before it, and what was
/// remembered then.
pub struct Origin {
    pub trail: Seq<u64>,
    pub memory: Memory,
}

/// What `w` and `s` remember.
pub open spec fn memory(w: Worker, s: Searcher) -> Memory {
    Memory { tt: s.tt, history: w.history, pawn_cache: w.pawn_cache, marks: marks(w.stack@) }
}

/// What a node that is entered with `w` and `s` begins with.
pub open spec fn origin(w: Worker, s: Searcher) -> Origin {
    Origin { trail: s.zobrist_trail@, memory: memory(w, s) }
}

/// Origin `o` with evaluation `e` marked at `ply`.
pub open spec fn viewing(o: Origin, ply: int, e: i32) -> Origin {
    Origin {
        memory: Memory { marks: o.memory.marks.update(ply, Mark { eval: e, ..o.memory.marks[ply] }), ..o.memory },
        ..o
    }
}

/// Below ply `n` the marks of `a` are those of `b`.
pub open spec fn shared(a: Seq<Mark>, b: Seq<Mark>, n: int) -> bool {
    forall|j: int| 0 <= j < n ==> #[trigger] a[j] == b[j]
}

/// Below the root, move `mv` of position `p` is marked at `ply`.
pub open spec fn carried(m: Seq<Mark>, p: Position, mv: Move, ply: int) -> bool {
    ply > 0 ==> m[ply].pt == p.board()[mv.src()]->0.kind && m[ply].to.at() == mv.dst()
}

/// A legal move or a pass leads from `a` to `b`.
pub open spec fn stepped(a: Position, b: Position) -> bool {
    ||| step::turned(a, b)
    ||| exists|mv: Move| #[trigger] search::may(a, mv) && line::followed(a, mv, b)
}

/// The positions of `ps` lead from `p` to `q`, a step at a time.
pub open spec fn pathway(ps: Seq<Position>, p: Position, q: Position) -> bool {
    &&& ps.len() > 0
    &&& ps[0] == p
    &&& ps.last() == q
    &&& forall|i: int| 1 <= i < ps.len() ==> stepped(ps[i - 1], #[trigger] ps[i])
}

/// The keys of the positions behind the first.
pub open spec fn keys(ps: Seq<Position>) -> Seq<u64> {
    Seq::new((ps.len() - 1) as nat, |i: int| ps[i + 1].hash)
}

/// Position `q` comes `n` steps after `p`, and the keys on the way make trail `b` of trail `a`.
#[verifier::opaque]
pub open spec fn visits(p: Position, a: Seq<u64>, q: Position, b: Seq<u64>, n: int) -> bool {
    exists|ps: Seq<Position>| #[trigger] pathway(ps, p, q) && ps.len() == n + 1 && b == a + keys(ps)
}

/// Position `q` comes some steps after `p`.
#[verifier::opaque]
pub open spec fn comes_from(p: Position, q: Position) -> bool {
    exists|ps: Seq<Position>| #[trigger] pathway(ps, p, q)
}

/// A slot of the pawn cache holds the features of a position that comes after `p`.
pub open spec fn seen_below(p: Position, e: PawnEntry) -> bool {
    exists|q: Position| #[trigger] comes_from(p, q) && e.key == q.pawn_key && e.pawn.of(q.board())
}

/// Pawn cache `c` is cache `o` with slots filled at positions that come after `p`.
#[verifier::opaque]
pub open spec fn furnished(c: PawnCache, o: PawnCache, p: Position) -> bool {
    &&& c.entries@.len() == o.entries@.len()
    &&& forall|i: int|
        0 <= i < c.entries@.len() ==> (#[trigger] c.entries@[i]) == o.entries@[i] || seen_below(p, c.entries@[i])
}

proof fn lemma_pathway_on(ps: Seq<Position>, qs: Seq<Position>, p: Position, q: Position, r: Position)
    requires
        pathway(ps, p, q),
        pathway(qs, q, r),
    ensures
        pathway(ps + qs.skip(1), p, r),
        (ps + qs.skip(1)).len() == ps.len() + qs.len() - 1,
        keys(ps + qs.skip(1)) == keys(ps) + keys(qs),
{
    let z = ps + qs.skip(1);
    assert forall|i: int| 1 <= i < z.len() implies stepped(z[i - 1], #[trigger] z[i]) by {
        if i < ps.len() {
            assert(z[i] == ps[i] && z[i - 1] == ps[i - 1]);
        } else {
            let j = i - ps.len() + 1;
            assert(z[i] == qs[j]);
            if i == ps.len() {
                assert(z[i - 1] == ps.last() && qs[0] == q);
            } else {
                assert(z[i - 1] == qs[j - 1]);
            }
        }
    }
    assert(z.last() == r) by {
        if qs.len() == 1 {
            assert(z =~= ps);
        } else {
            assert(z.last() == qs.last());
        }
    }
    assert(keys(z) =~= keys(ps) + keys(qs));
}

pub proof fn lemma_visits_here(p: Position, a: Seq<u64>)
    ensures
        visits(p, a, p, a, 0),
        comes_from(p, p),
{
    reveal(visits);
    reveal(comes_from);
    assert(pathway(seq![p], p, p));
    assert(a =~= a + keys(seq![p]));
}

pub proof fn lemma_visits_next(p: Position, a: Seq<u64>, q: Position)
    requires
        stepped(p, q),
    ensures
        visits(p, a, q, a.push(q.hash), 1),
        comes_from(p, q),
{
    reveal(visits);
    reveal(comes_from);
    let ps = seq![p, q];
    assert(pathway(ps, p, q));
    assert(a.push(q.hash) =~= a + keys(ps));
}

pub proof fn lemma_visits_on(
    p: Position,
    a: Seq<u64>,
    q: Position,
    b: Seq<u64>,
    m: int,
    r: Position,
    c: Seq<u64>,
    n: int,
)
    requires
        visits(p, a, q, b, m),
        visits(q, b, r, c, n),
    ensures
        visits(p, a, r, c, m + n),
{
    reveal(visits);
    let ps = choose|ps: Seq<Position>| #[trigger] pathway(ps, p, q) && ps.len() == m + 1 && b == a + keys(ps);
    let qs = choose|qs: Seq<Position>| #[trigger] pathway(qs, q, r) && qs.len() == n + 1 && c == b + keys(qs);
    lemma_pathway_on(ps, qs, p, q, r);
    assert(c =~= a + keys(ps + qs.skip(1)));
}

pub proof fn lemma_visits_comes(p: Position, a: Seq<u64>, q: Position, b: Seq<u64>, n: int)
    requires
        visits(p, a, q, b, n),
    ensures
        comes_from(p, q),
{
    reveal(visits);
    reveal(comes_from);
}

proof fn lemma_comes_on(p: Position, q: Position, r: Position)
    requires
        comes_from(p, q),
        comes_from(q, r),
    ensures
        comes_from(p, r),
{
    reveal(comes_from);
    let ps = choose|ps: Seq<Position>| #[trigger] pathway(ps, p, q);
    let qs = choose|qs: Seq<Position>| #[trigger] pathway(qs, q, r);
    lemma_pathway_on(ps, qs, p, q, r);
}

/// No steps lead nowhere else.
pub proof fn lemma_visits_none(p: Position, a: Seq<u64>, q: Position, b: Seq<u64>)
    requires
        visits(p, a, q, b, 0),
    ensures
        q == p,
        b == a,
{
    reveal(visits);
    let ps = choose|ps: Seq<Position>| #[trigger] pathway(ps, p, q) && ps.len() == 0 + 1 && b == a + keys(ps);
    assert(b =~= a);
}

/// A cache that nothing was added to.
pub broadcast proof fn lemma_furnished_same(c: PawnCache, o: PawnCache, p: Position)
    requires
        c == o,
    ensures
        #[trigger] furnished(c, o, p),
{
    reveal(furnished);
}

/// A cache filled further below the same position.
pub broadcast proof fn lemma_furnished_further(a: PawnCache, b: PawnCache, c: PawnCache, p: Position)
    requires
        #[trigger] furnished(b, a, p),
        #[trigger] furnished(c, b, p),
    ensures
        furnished(c, a, p),
{
    reveal(furnished);
    assert forall|i: int| 0 <= i < c.entries@.len() implies (#[trigger] c.entries@[i]) == a.entries@[i] || seen_below(
        p,
        c.entries@[i],
    ) by {
        assert(c.entries@[i] == b.entries@[i] || seen_below(p, c.entries@[i]));
        assert(b.entries@[i] == a.entries@[i] || seen_below(p, b.entries@[i]));
    }
}

/// What is filled below a later position is filled below an earlier one.
pub proof fn lemma_furnished_above(c: PawnCache, o: PawnCache, p: Position, q: Position)
    requires
        furnished(c, o, q),
        comes_from(p, q),
    ensures
        furnished(c, o, p),
{
    reveal(furnished);
    assert forall|i: int| 0 <= i < c.entries@.len() implies (#[trigger] c.entries@[i]) == o.entries@[i] || seen_below(
        p,
        c.entries@[i],
    ) by {
        let e = c.entries@[i];
        if e != o.entries@[i] {
            let r = choose|r: Position| #[trigger] comes_from(q, r) && e.key == r.pawn_key && e.pawn.of(r.board());
            lemma_comes_on(p, q, r);
        }
    }
}

/// A probe at a position fills a slot at it.
pub proof fn lemma_furnished_probe(c: PawnCache, o: PawnCache, p: Position, i: int, e: PawnEntry)
    requires
        0 <= i < o.entries@.len(),
        c.entries@ == o.entries@.update(i, e),
        e == o.entries@[i] || (e.key == p.pawn_key && e.pawn.of(p.board())),
    ensures
        furnished(c, o, p),
{
    reveal(furnished);
    lemma_visits_here(p, Seq::empty());
    assert forall|j: int| 0 <= j < c.entries@.len() implies (#[trigger] c.entries@[j]) == o.entries@[j] || seen_below(
        p,
        c.entries@[j],
    ) by {
        if j == i && e != o.entries@[i] {
            assert(comes_from(p, p));
        }
    }
}

/// An entry of the stack that keeps its mark.
pub proof fn lemma_marks_kept(a: Seq<Stack>, i: int, e: Stack)
    requires
        0 <= i < a.len(),
        e.moved_pt == a[i].moved_pt,
        e.moved_to == a[i].moved_to,
        e.static_eval == a[i].static_eval,
    ensures
        marks(a.update(i, e)) == marks(a),
{
    assert(marks(a.update(i, e)) =~= marks(a));
}

} // verus!
