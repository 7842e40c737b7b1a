//! The game that a protocol plays: the position on the board and the keys of those before.

use vstd::prelude::*;

use crate::chess::legal;
use crate::chess::moves::Move;
use crate::chess::position::{self, Position};
use crate::chess::psq::Accumulator;
use crate::chess::rules;
use crate::engine::line;
use crate::engine::movegen::gen_legal_moves;
use crate::protocols::notation;
use crate::text;

verus! {

/// A game in progress.
pub struct Game {
    pub board: Position,
    pub accumulator: Accumulator,
    /// The keys of the positions so far.
    pub history: Vec<u64>,
}

/// The side to move is in check.
pub open spec fn checked(p: Position) -> bool {
    rules::attacked(p.board(), p.stm.other(), position::king_of(p.board(), p.stm))
}

/// Position `q` is `p` with the turn passed to the other side.
pub open spec fn flipped(p: Position, q: Position) -> bool {
    &&& q.board() == p.board()
    &&& q.stm == p.stm.other()
    &&& q.castling_rights == p.castling_rights
    &&& q.castling_rooks == p.castling_rooks
    &&& q.en_passant is None
    &&& q.is_frc == p.is_frc
    &&& q.halfmove_clock == p.halfmove_clock
    &&& q.fullmove_number == p.fullmove_number
}

/// How often `key` occurs among the first `n` keys.
pub open spec fn occurrences(keys: Seq<u64>, key: u64, n: nat) -> nat
    decreases n,
{
    if n == 0 {
        0
    } else {
        occurrences(keys, key, (n - 1) as nat) + (if keys[n - 1] == key {
            1nat
        } else {
            0nat
        })
    }
}

/// Move `m` is legal in `p` and written as `w`.
pub open spec fn spells(p: Position, w: Seq<char>, m: Move) -> bool {
    m.canonical() && legal::legal(p, m) && notation::written(m, p.is_frc) == w
}

/// The words from `i` on spell the moves of `ms`, played one after the other.
pub open spec fn spelled_out(w: Seq<Seq<char>>, i: int, ms: Seq<Move>, frc: bool) -> bool {
    &&& i + ms.len() <= w.len()
    &&& forall|k: int| 0 <= k < ms.len() ==> notation::written(#[trigger] ms[k], frc) == w[i + k]
}

/// The position that the moves of `ms` lead to from `b` has key `key`.
pub open spec fn stands(b: Position, ms: Seq<Move>, key: u64) -> bool {
    exists|q: Position| #[trigger] line::reached(b, ms, q) && q.hash == key
}

/// The keys are those of the positions that the moves of `ms` lead to from `b`, one after the
/// other.
pub open spec fn keyed(b: Position, ms: Seq<Move>, keys: Seq<u64>) -> bool {
    &&& keys.len() == ms.len()
    &&& forall|k: int| 0 <= k < keys.len() ==> stands(b, ms.take(k + 1), #[trigger] keys[k])
}

/// One more move, and its position's key.
proof fn lemma_keyed_further(b: Position, ms: Seq<Move>, keys: Seq<u64>, m: Move, q: Position)
    requires
        keyed(b, ms, keys),
        line::reached(b, ms.push(m), q),
    ensures
        keyed(b, ms.push(m), keys.push(q.hash)),
{
    let l = ms.push(m);
    let ks = keys.push(q.hash);
    assert forall|k: int| 0 <= k < ks.len() implies stands(b, l.take(k + 1), #[trigger] ks[k]) by {
        if k < keys.len() {
            assert(l.take(k + 1) =~= ms.take(k + 1));
            assert(stands(b, ms.take(k + 1), keys[k]));
        } else {
            assert(l.take(k + 1) =~= l);
        }
    }
}

/// From board `b` and keys `h`, the words from `from` on have been played, which led to game
/// `g`. Word number `r` is the first that spells no legal move; all do where it is `None`.
pub open spec fn played(b: Position, h: Seq<u64>, g: Game, w: Seq<Seq<char>>, from: int, r: Option<usize>) -> bool {
    exists|ms: Seq<Move>|
        {
            &&& #[trigger] line::reached(b, ms, g.board)
            &&& spelled_out(w, from, ms, b.is_frc)
            &&& g.history@.len() == h.len() + ms.len()
            &&& g.history@.take(h.len() as int) == h
            &&& keyed(b, ms, g.history@.skip(h.len() as int))
            &&& match r {
                None => from + ms.len() == w.len(),
                Some(i) => {
                    &&& i == from + ms.len()
                    &&& i < w.len()
                    &&& forall|m: Move| !#[trigger] spells(g.board, w[i as int], m)
                },
            }
        }
}

/// Nothing to play.
pub proof fn lemma_nothing_played(g: Game, w: Seq<Seq<char>>)
    ensures
        played(g.board, g.history@, g, w, w.len() as int, None),
{
    line::lemma_reached_nothing(g.board);
    let ms = Seq::<Move>::empty();
    assert(line::reached(g.board, ms, g.board));
    assert(g.history@.skip(g.history@.len() as int) =~= Seq::<u64>::empty());
    assert(g.history@.take(g.history@.len() as int) =~= g.history@);
}

/// The legal move that is written as `w`.
fn find_written(board: &Position, w: &Vec<char>) -> (r: Option<Move>)
    requires
        board.wf(),
    ensures
        match r {
            Some(m) => spells(*board, w@, m),
            None => forall|m: Move| !#[trigger] spells(*board, w@, m),
        },
{
    let list = gen_legal_moves(board);
    let mut i: usize = 0;
    while i < list.len()
        invariant
            i <= list@.len(),
            forall|m: Move| #[trigger] list@.contains(m) <==> m.canonical() && legal::legal(*board, m),
            forall|j: int| 0 <= j < i ==> notation::written(#[trigger] list@[j], board.is_frc) != w@,
        decreases list@.len() - i,
    {
        let m = list.get(i);
        let s = m.to_uci(board.is_frc);
        if text::is_word(w, s.as_str()) {
            assert(list@.contains(m));
            return Some(m);
        }
        i = i + 1;
    }
    proof {
        assert forall|m: Move| !#[trigger] spells(*board, w@, m) by {
            if spells(*board, w@, m) {
                assert(list@.contains(m));
                let j = choose|j: int| 0 <= j < list@.len() && list@[j] == m;
                assert(notation::written(list@[j], board.is_frc) != w@);
            }
        }
    }
    None
}

impl Game {
    pub open spec fn wf(self) -> bool {
        &&& self.board.wf()
        &&& self.accumulator.of(self.board.board())
        &&& self.history@.len() > 0
    }

    /// A game that starts from `board`.
    pub fn new(board: &Position) -> (g: Game)
        requires
            board.wf(),
        ensures
            g.wf(),
            g.board == *board,
            g.history@ == seq![board.hash],
    {
        let mut history: Vec<u64> = Vec::new();
        history.push(board.hash);
        assert(history@ =~= seq![board.hash]);
        Game { board: *board, accumulator: board.get_initial_accumulator(), history }
    }

    /// Starts anew from `board`, with castling written by the rook where `frc` is set.
    pub fn load(&mut self, board: &Position, frc: bool)
        requires
            board.wf(),
        ensures
            final(self).wf(),
            final(self).board == (Position { is_frc: frc, ..*board }),
            final(self).history@ == seq![board.hash],
    {
        let mut b = *board;
        b.is_frc = frc;
        proof {
            assert(b.board() == board.board());
            assert forall|i: int| 0 <= i < 4 implies #[trigger] b.castling_sound(i) by {
                assert(board.castling_sound(i));
            }
        }
        self.board = b;
        self.accumulator = b.get_initial_accumulator();
        self.history = Vec::new();
        self.history.push(b.hash);
        assert(self.history@ =~= seq![board.hash]);
    }

    /// Plays a legal move.
    pub fn play(&mut self, mv: Move)
        requires
            old(self).wf(),
            legal::legal(old(self).board, mv),
        ensures
            final(self).wf(),
            line::followed(old(self).board, mv, final(self).board),
            final(self).board.is_frc == old(self).board.is_frc,
            final(self).history@ == old(self).history@.push(final(self).board.hash),
    {
        proof {
            reveal(line::followed);
        }
        let _ = self.board.make_move(mv, &mut self.accumulator);
        self.history.push(self.board.hash);
    }

    /// Plays the moves that the words from `from` on spell, up to the first that spells no
    /// legal move. The place of that word comes back.
    pub fn play_words(&mut self, w: &Vec<Vec<char>>, from: usize) -> (r: Option<usize>)
        requires
            old(self).wf(),
            from <= w@.len(),
        ensures
            final(self).wf(),
            played(old(self).board, old(self).history@, *final(self), text::spelled(w@), from as int, r),
    {
        let ghost g0 = *self;
        let ghost ws = text::spelled(w@);
        let ghost mut ms: Seq<Move> = Seq::empty();
        proof {
            line::lemma_reached_nothing(self.board);
            assert(self.history@.take(self.history@.len() as int) =~= self.history@);
            assert(self.history@.skip(self.history@.len() as int) =~= Seq::<u64>::empty());
        }
        let mut i: usize = from;
        while i < w.len()
            invariant
                self.wf(),
                g0 == *old(self),
                from <= i <= w@.len(),
                ws == text::spelled(w@),
                ms.len() == i - from,
                self.board.is_frc == g0.board.is_frc,
                line::reached(g0.board, ms, self.board),
                spelled_out(ws, from as int, ms, g0.board.is_frc),
                self.history@.len() == g0.history@.len() + ms.len(),
                self.history@.take(g0.history@.len() as int) == g0.history@,
                keyed(g0.board, ms, self.history@.skip(g0.history@.len() as int)),
            decreases w@.len() - i,
        {
            assert(ws[i as int] == w@[i as int]@);
            match find_written(&self.board, &w[i]) {
                Some(m) => {
                    let ghost before = *self;
                    self.play(m);
                    proof {
                        line::lemma_reached_further(g0.board, ms, before.board, m, self.board);
                        let n = g0.history@.len() as int;
                        lemma_keyed_further(g0.board, ms, before.history@.skip(n), m, self.board);
                        assert(self.history@.skip(n) =~= before.history@.skip(n).push(self.board.hash));
                        ms = ms.push(m);
                        assert(self.history@.take(g0.history@.len() as int) =~= before.history@.take(
                            g0.history@.len() as int,
                        ));
                    }
                },
                None => {
                    assert(line::reached(g0.board, ms, self.board));
                    return Some(i);
                },
            }
            i = i + 1;
        }
        assert(line::reached(g0.board, ms, self.board));
        None
    }

    /// Passes the turn to the other side, unless the side to move is in check: the turn
    /// cannot be passed then.
    pub fn flip(&mut self) -> (r: bool)
        requires
            old(self).wf(),
        ensures
            final(self).wf(),
            final(self).accumulator == old(self).accumulator,
            final(self).history@ == old(self).history@,
            r == !checked(old(self).board),
            r ==> flipped(old(self).board, final(self).board),
            !r ==> final(self).board == old(self).board,
    {
        let checkers = self.board.checkers();
        let ghost p = self.board;
        let ghost k = position::king_of(p.board(), p.stm);
        if checkers.is_not_empty() {
            proof {
                let a = choose|a: int| #[trigger] checkers.has(a);
                assert(rules::hits(p.board(), p.stm.other(), a, k));
            }
            return false;
        }
        proof {
            if checked(p) {
                let a = choose|a: int| #[trigger] rules::hits(p.board(), p.stm.other(), a, k);
                assert(checkers.has(a));
            }
        }
        let clock: u32 = self.board.halfmove_clock;
        let _ = self.board.make_null_move();
        let ghost q = self.board;
        self.board.halfmove_clock = clock;
        proof {
            assert(self.board.board() == q.board());
            assert forall|i: int| 0 <= i < 4 implies #[trigger] self.board.castling_sound(i) by {
                assert(q.castling_sound(i));
            }
        }
        true
    }

    /// Whether the position on the board has occurred three times.
    pub fn is_threefold_repetition(&self) -> (r: bool)
        ensures
            r == (occurrences(self.history@, self.board.hash, self.history@.len()) >= 3),
            r <==> exists|i: int, j: int, k: int|
                0 <= i < j < k < self.history@.len() && #[trigger] self.history@[i] == self.board.hash && #[trigger] self.history@[j]
                    == self.board.hash && #[trigger] self.history@[k] == self.board.hash,
    {
        proof {
            law_three_occurrences_are_three_places(self.history@, self.board.hash);
        }
        let n: usize = self.history.len();
        let mut i: usize = 0;
        let mut count: usize = 0;
        while i < n
            invariant
                i <= n,
                n == self.history@.len(),
                count == occurrences(self.history@, self.board.hash, i as nat),
                count <= i,
            decreases n - i,
        {
            if self.history[i] == self.board.hash {
                count = count + 1;
            }
            i = i + 1;
        }
        count >= 3
    }
}

/// Every key is counted where it stands and nowhere else: one more of it counts one more, one of
/// another changes nothing, and a key that stands nowhere is not counted.
pub proof fn law_occurrences_count_a_key(keys: Seq<u64>, key: u64, other: u64)
    ensures
        occurrences(keys.push(key), key, keys.len() + 1) == occurrences(keys, key, keys.len()) + 1,
        other != key ==> occurrences(keys.push(other), key, keys.len() + 1) == occurrences(keys, key, keys.len()),
        occurrences(keys, key, keys.len()) <= keys.len(),
        occurrences(keys, key, keys.len()) == 0 <==> !keys.contains(key),
{
    lemma_same_occurrences(keys, keys.push(key), key, keys.len());
    lemma_same_occurrences(keys, keys.push(other), key, keys.len());
    lemma_some_occurrence(keys, key, keys.len());
}

proof fn lemma_same_occurrences(a: Seq<u64>, b: Seq<u64>, key: u64, n: nat)
    requires
        n <= a.len(),
        n <= b.len(),
        forall|i: int| 0 <= i < n ==> a[i] == b[i],
    ensures
        occurrences(a, key, n) == occurrences(b, key, n),
    decreases n,
{
    if n > 0 {
        lemma_same_occurrences(a, b, key, (n - 1) as nat);
    }
}

proof fn lemma_some_occurrence(keys: Seq<u64>, key: u64, n: nat)
    requires
        n <= keys.len(),
    ensures
        occurrences(keys, key, n) <= n,
        occurrences(keys, key, n) == 0 <==> forall|i: int| 0 <= i < n ==> #[trigger] keys[i] != key,
    decreases n,
{
    if n > 0 {
        lemma_some_occurrence(keys, key, (n - 1) as nat);
        if occurrences(keys, key, n) == 0 {
            assert(keys[n - 1] != key);
        }
    }
}

/// Passing the turn twice gives the turn back on the same board.
pub proof fn law_flipping_twice_changes_nothing_but_en_passant(p: Position, q: Position, r: Position)
    requires
        flipped(p, q),
        flipped(q, r),
    ensures
        r.board() == p.board(),
        r.stm == p.stm,
        q.stm != p.stm,
        r.castling_rights == p.castling_rights,
        q.en_passant is None && r.en_passant is None,
        r.halfmove_clock == p.halfmove_clock && r.fullmove_number == p.fullmove_number,
{
}

/// Check is an attack on the king of the side to move by a man of the other side.
pub proof fn law_check_is_an_attack_on_the_king(p: Position, a: int)
    ensures
        rules::hits(p.board(), p.stm.other(), a, position::king_of(p.board(), p.stm)) ==> checked(p),
        checked(p) ==> exists|x: int| #[trigger]
            rules::hits(p.board(), p.stm.other(), x, position::king_of(p.board(), p.stm)),
{
}

/// A key occurs three times where it stands in three different places.
pub proof fn law_three_occurrences_are_three_places(keys: Seq<u64>, key: u64)
    ensures
        occurrences(keys, key, keys.len()) >= 3 <==> exists|i: int, j: int, k: int|
            0 <= i < j < k < keys.len() && #[trigger] keys[i] == key && #[trigger] keys[j] == key && #[trigger] keys[k] == key,
{
    let n = keys.len();
    lemma_last_place(keys, key, n);
    if occurrences(keys, key, n) >= 3 {
        let k = lemma_last_place(keys, key, n);
        let j = lemma_last_place(keys, key, k as nat);
        let i = lemma_last_place(keys, key, j as nat);
        assert(keys[i] == key && keys[j] == key && keys[k] == key);
    }
    if exists|i: int, j: int, k: int|
        0 <= i < j < k < keys.len() && #[trigger] keys[i] == key && #[trigger] keys[j] == key && #[trigger] keys[k] == key {
        let (i, j, k) = choose|i: int, j: int, k: int|
            0 <= i < j < k < keys.len() && #[trigger] keys[i] == key && #[trigger] keys[j] == key && #[trigger] keys[k] == key;
        lemma_grows(keys, key, 0, i as nat);
        lemma_grows(keys, key, (i + 1) as nat, j as nat);
        lemma_grows(keys, key, (j + 1) as nat, k as nat);
        lemma_grows(keys, key, (k + 1) as nat, n);
    }
}

/// Where a key occurs among the first `n`, it has a last place there.
proof fn lemma_last_place(keys: Seq<u64>, key: u64, n: nat) -> (i: int)
    requires
        n <= keys.len(),
    ensures
        occurrences(keys, key, n) > 0 ==> 0 <= i < n && keys[i] == key && occurrences(keys, key, i as nat) == occurrences(
            keys,
            key,
            n,
        ) - 1,
    decreases n,
{
    if n == 0 {
        0
    } else if keys[n - 1] == key {
        n - 1
    } else {
        lemma_last_place(keys, key, (n - 1) as nat)
    }
}

proof fn lemma_grows(keys: Seq<u64>, key: u64, m: nat, n: nat)
    requires
        m <= n <= keys.len(),
    ensures
        occurrences(keys, key, m) <= occurrences(keys, key, n),
    decreases n,
{
    if m < n {
        lemma_grows(keys, key, m, (n - 1) as nat);
    }
}

} // verus!
