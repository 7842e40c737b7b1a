//! Staged move generation and heuristic ordering.
//!
//! Most search nodes cut off on the hash move or the first good capture; generating quiets
//! eagerly wastes work. The picker yields moves in stages, best guesses first, and
//! generates a stage only when the earlier ones are exhausted.
//!
//! | Stage        | Content                          | Order             |
//! |--------------|----------------------------------|-------------------|
//! | hash         | the move a table remembers       |                   |
//! | captures     | captures that do not lose much   | victim, attacker  |
//! | quiets       | killers, then the rest           | history           |
//! | bad captures | captures that do, deferred       | victim, attacker  |
//!
//! A move is packed with its mark into one `u32`, so an ascending sort of integers puts the
//! best at the end, where it is popped.

use vstd::prelude::*;

use crate::chess::bitboard::{self, Bitboard, Direction};
use crate::chess::geom;
use crate::chess::legal;
use crate::chess::moves::Move;
use crate::chess::pins::Pins;
use crate::chess::play;
use crate::chess::position::Position;
use crate::chess::rules;
use crate::chess::types::{Color, PieceType, Square};
use crate::engine::config::{self, SearchConfig};
use crate::engine::history::{self, CaptureHistory, ContContext, History};
use crate::engine::movegen::{self, gen_pseudo_moves, gen_tactical_moves, is_pseudo_legal};
use crate::engine::see::{self, see_ge};

verus! {

/// What lifts a signed capture mark to where marks start.
pub const SORT_BIAS: i32 = 32768;

/// The highest mark history gives a quiet move.
pub const QUIET_SCORE_MAX: i32 = 63000;

/// The marks of the two killers, above every mark from history.
pub const KILLER_SCORES: [u32; 2] = [65000, 64000];

/// The marks of quiet promotions, above the killers. The knight is above rook and bishop:
/// its fork is the underpromotion that wins.
pub const PROMO_B_SCORE: u32 = 65532;

pub const PROMO_R_SCORE: u32 = 65533;

pub const PROMO_N_SCORE: u32 = 65534;

pub const PROMO_Q_SCORE: u32 = 65535;

/// A mark and a move in one number.
pub open spec fn packed(mark: int, m: Move) -> int {
    mark * 65536 + m.0
}

/// The move in a packed number.
pub open spec fn unpacked(x: u32) -> Move {
    Move((x as int % 65536) as u16)
}

/// Whether packed number `x` of `c` holds `m`.
pub open spec fn listed(c: Seq<u32>, m: Move) -> bool {
    exists|i: int| 0 <= i < c.len() && #[trigger] unpacked(c[i]) == m
}

/// Mark in the high half, move in the low.
fn pack(mark: u32, mv: Move) -> (x: u32)
    requires
        mark <= 65535,
    ensures
        x == packed(mark as int, mv),
        unpacked(x) == mv,
{
    mark * 65536 + mv.inner() as u32
}

/// The move of a packed number.
fn unpack(x: u32) -> (mv: Move)
    ensures
        mv == unpacked(x),
{
    Move::from_u16((x % 65536) as u16)
}

/// Whether the numbers grow.
pub open spec fn ascending(c: Seq<u32>) -> bool {
    forall|i: int, j: int| 0 <= i < j < c.len() ==> c[i] < c[j]
}

/// Whether the numbers shrink.
pub open spec fn descending(c: Seq<u32>) -> bool {
    forall|i: int, j: int| 0 <= i < j < c.len() ==> c[i] > c[j]
}

/// Swapping two elements keeps what a sequence holds, and how often.
proof fn lemma_swap(s: Seq<u32>, i: int, j: int)
    requires
        0 <= i < s.len(),
        0 <= j < s.len(),
    ensures
        forall|x: u32| #[trigger] s.update(i, s[j]).update(j, s[i]).contains(x) <==> s.contains(x),
        s.no_duplicates() ==> s.update(i, s[j]).update(j, s[i]).no_duplicates(),
{
    let t = s.update(i, s[j]).update(j, s[i]);
    assert forall|x: u32| #[trigger] t.contains(x) <==> s.contains(x) by {
        if t.contains(x) {
            let k = choose|k: int| 0 <= k < t.len() && t[k] == x;
            if k == i {
                assert(s[j] == x);
            } else if k == j {
                assert(s[i] == x);
            } else {
                assert(s[k] == x);
            }
        }
        if s.contains(x) {
            let k = choose|k: int| 0 <= k < s.len() && s[k] == x;
            if k == i {
                assert(t[j] == x);
            } else if k == j {
                assert(t[i] == x);
            } else {
                assert(t[k] == x);
            }
        }
    }
}

/// Sorts distinct numbers, the least first.
fn sort_candidates(v: &mut Vec<u32>)
    requires
        old(v)@.no_duplicates(),
    ensures
        ascending(final(v)@),
        forall|x: u32| #[trigger] final(v)@.contains(x) <==> old(v)@.contains(x),
{
    let ghost v0 = v@;
    let n: usize = v.len();
    let mut i: usize = 0;
    while i < n
        invariant
            i <= n,
            n == v@.len(),
            v@.no_duplicates(),
            ascending(v@.take(i as int)),
            forall|x: u32| #[trigger] v@.contains(x) <==> v0.contains(x),
        decreases n - i,
    {
        let mut j: usize = i;
        assert(ascending(v@.take(i as int)));
        assert forall|a: int, b: int| 0 <= a < b <= i && b != j implies v@[a] < v@[b] by {
            assert(v@.take(i as int)[a] < v@.take(i as int)[b]);
        }
        while j > 0 && v[j - 1] > v[j]
            invariant
                j <= i < n,
                n == v@.len(),
                v@.no_duplicates(),
                forall|a: int, b: int| 0 <= a < b <= i && b != j ==> v@[a] < v@[b],
                forall|x: u32| #[trigger] v@.contains(x) <==> v0.contains(x),
            decreases j,
        {
            let ghost w = v@;
            let a: u32 = v[j - 1];
            let b: u32 = v[j];
            v.set(j - 1, b);
            v.set(j, a);
            proof {
                lemma_swap(w, j - 1, j as int);
                assert(v@ =~= w.update(j - 1, w[j as int]).update(j as int, w[j - 1]));
            }
            j = j - 1;
        }
        i = i + 1;
        assert(ascending(v@.take(i as int))) by {
            assert forall|a: int, b: int| 0 <= a < b < i implies v@.take(i as int)[a] < v@.take(i as int)[b] by {
                if b == j && a < j {
                    assert(v@[j - 1] != v@[j as int]);
                    assert(v@[j - 1] < v@[j as int]);
                    if a < j - 1 {
                        assert(v@[a] < v@[j - 1]);
                    }
                }
            }
        }
    }
    assert(v@.take(n as int) =~= v@);
}

/// The stages, in the order they are passed.
#[derive(Clone, Copy, Debug, PartialEq, Eq, Structural)]
pub enum Stage {
    Hash,
    GenCaptures,
    YieldCaptures,
    Killers,
    GenQSearchQuiets,
    GenQuiets,
    YieldQuiets,
    YieldBadCaptures,
    Done,
}

impl Stage {
    /// The number of stages still ahead.
    pub open spec fn ahead(self) -> nat {
        match self {
            Stage::Hash => 8,
            Stage::GenCaptures => 7,
            Stage::YieldCaptures => 6,
            Stage::Killers => 5,
            Stage::GenQSearchQuiets => 4,
            Stage::GenQuiets => 3,
            Stage::YieldQuiets => 2,
            Stage::YieldBadCaptures => 1,
            Stage::Done => 0,
        }
    }
}

/// A group of moves that is generated at once.
#[derive(Clone, Copy, Debug, PartialEq, Eq, Structural)]
enum Batch {
    Captures,
    Quiets,
    QueenPushes,
}

impl Batch {
    spec fn holds(self, m: Move) -> bool {
        match self {
            Batch::Captures => m.captures(),
            Batch::Quiets => !m.captures(),
            Batch::QueenPushes => m.flag() == Move::PROM_Q,
        }
    }

    fn takes(self, mv: Move) -> (r: bool)
        ensures
            r == self.holds(mv),
    {
        match self {
            Batch::Captures => mv.is_capture(),
            Batch::Quiets => !mv.is_capture(),
            Batch::QueenPushes => mv.inner() / 4096 == Move::PROM_Q,
        }
    }
}

/// What a picker goes by at one node. It does not change while moves are yielded.
#[derive(Clone, Copy, Debug)]
pub struct Plan {
    pub hash_move: Option<Move>,
    /// A capture comes before the quiets when its exchange loses at most this.
    pub good_capture_margin: i32,
    pub mvvlva_v: [i32; 8],
    pub mvvlva_a: [i32; 8],
    pub mvvlva_ep: i32,
    pub capt_hist_divisor: i32,
    /// The node's pins, found once.
    pub pins: Pins,
    pub killers: [Move; 2],
    pub threats: Bitboard,
    pub cont1: ContContext,
    pub cont2: ContContext,
    pub cont4: ContContext,
    pub is_qsearch: bool,
    pub in_check: bool,
}

/// Whether `m` can be remembered as a killer: a move that neither captures nor promotes,
/// or none at all.
pub open spec fn killer_like(m: Move) -> bool {
    m.canonical() && !m.captures() && !m.promotes()
}

impl Plan {
    /// The plan fits position `p`.
    pub open spec fn wf(self, p: Position) -> bool {
        &&& self.hash_move matches Some(m) ==> legal::pseudo_legal(p, m)
        &&& 0 <= self.good_capture_margin <= 300
        &&& forall|i: int| 0 <= i < 7 ==> 0 <= #[trigger] self.mvvlva_v[i] <= 15010
        &&& forall|i: int| 0 <= i < 5 ==> 0 <= #[trigger] self.mvvlva_v[i] <= 1100
        &&& forall|i: int| 0 <= i < 7 ==> 0 <= #[trigger] self.mvvlva_a[i] <= 150
        &&& 60 <= self.mvvlva_ep <= 150
        &&& 4 <= self.capt_hist_divisor <= 64
        &&& self.pins.of(p)
        &&& killer_like(self.killers[0])
        &&& killer_like(self.killers[1])
        &&& self.killers[0] != self.killers[1] || self.killers[0].0 == 0
        &&& self.cont1.to.ok()
        &&& self.cont2.to.ok()
        &&& self.cont4.to.ok()
    }

    pub open spec fn is_hash(self, m: Move) -> bool {
        self.hash_move == Some(m)
    }

    /// Whether quiet moves are wanted beside the queen promotions.
    pub open spec fn full(self) -> bool {
        !self.is_qsearch || self.in_check
    }

    /// The moves that the picker yields, the hash move apart.
    pub open spec fn offered(self, p: Position, m: Move) -> bool {
        &&& m.canonical()
        &&& legal::pseudo_legal(p, m)
        &&& m.captures() || self.full() || m.flag() == Move::PROM_Q
    }

    /// What a capture brings.
    pub open spec fn victim(self, p: Position, m: Move) -> PieceType {
        if m.takes_ep() {
            PieceType::Pawn
        } else {
            p.board()[m.dst()]->0.kind
        }
    }

    /// What capture history says of a capture, toned down.
    pub open spec fn learned(self, p: Position, h: History, m: Move) -> int {
        history::quotient(
            h.capt.data@[CaptureHistory::place(
                p.stm,
                p.board()[m.src()]->0.kind,
                Square(m.dst() as u8),
                self.victim(p, m),
            )] as int,
            self.capt_hist_divisor as int,
        )
    }

    /// The mark of a capture: the victim counts for it, the attacker against it, and
    /// capture history either way. A capture that promotes counts the new man instead.
    pub open spec fn capture_mark(self, p: Position, h: History, m: Move) -> int {
        SORT_BIAS + (if m.promotes() {
            self.mvvlva_v[self.victim(p, m).index()] - self.mvvlva_a[0] + self.mvvlva_v[m.promoted().index()]
        } else if m.takes_ep() {
            self.mvvlva_ep + self.learned(p, h, m)
        } else {
            self.mvvlva_v[self.victim(p, m).index()] - self.mvvlva_a[p.board()[m.src()]->0.kind.index()] + self.learned(
                p,
                h,
                m,
            )
        })
    }

    /// What the quiet histories say of a quiet move.
    pub open spec fn quiet_worth(self, p: Position, h: History, m: Move) -> int {
        let pt = p.board()[m.src()]->0.kind;
        let from = Square(m.src() as u8);
        let to = Square(m.dst() as u8);
        h.table@[History::main_place(p.stm, pt, to)] + h.butterfly@[History::fly_place(p.stm, from, to, self.threats)]
            + History::cont_worth(h.cont_near, p.stm, self.cont1, pt, to) + History::cont_worth(
            h.cont_far,
            p.stm,
            self.cont2,
            pt,
            to,
        ) + History::cont_worth(h.cont_far, p.stm, self.cont4, pt, to)
    }

    /// The mark of a quiet move: promotions first, then killers, then by history.
    pub open spec fn quiet_mark(self, p: Position, h: History, m: Move) -> int {
        if m.promotes() {
            match m.promoted() {
                PieceType::Queen => PROMO_Q_SCORE as int,
                PieceType::Knight => PROMO_N_SCORE as int,
                PieceType::Rook => PROMO_R_SCORE as int,
                _ => PROMO_B_SCORE as int,
            }
        } else if m == self.killers[0] {
            65000
        } else if m == self.killers[1] {
            64000
        } else {
            history::clamped(self.quiet_worth(p, h, m) + SORT_BIAS, 0, QUIET_SCORE_MAX as int)
        }
    }

    /// Whether a capture waits until the quiets are done: a dearer man takes a cheaper one,
    /// and the exchange loses more than the margin.
    pub open spec fn deferred(self, p: Position, m: Move) -> bool {
        &&& !self.is_qsearch
        &&& !m.promotes()
        &&& self.mvvlva_v[self.victim(p, m).index()] < self.mvvlva_v[p.board()[m.src()]->0.kind.index()]
        &&& see::exchange(p, m) < -self.good_capture_margin
    }

    /// The place of a move in the order of yielding, the highest first.
    pub open spec fn rank(self, p: Position, h: History, m: Move) -> int {
        if self.is_hash(m) {
            0x3_0000_0000int
        } else if !m.captures() {
            0x1_0000_0000 + packed(self.quiet_mark(p, h, m), m)
        } else if self.deferred(p, m) {
            packed(self.capture_mark(p, h, m), m)
        } else {
            0x2_0000_0000 + packed(self.capture_mark(p, h, m), m)
        }
    }

    /// The mark of a move within its batch.
    spec fn mark(self, p: Position, h: History, batch: Batch, m: Move) -> int {
        match batch {
            Batch::Captures => self.capture_mark(p, h, m),
            _ => self.quiet_mark(p, h, m),
        }
    }
}


/// The men of a capture are on the board, and none of them is a king that could fall.
pub proof fn lemma_capture_men(p: Position, m: Move)
    requires
        p.wf(),
        legal::pseudo_legal(p, m),
        m.captures(),
    ensures
        p.board()[m.src()] is Some,
        p.board()[m.src()]->0.color == p.stm,
        p.board()[m.src()]->0.kind != PieceType::Empty,
        m.takes_ep() ==> p.board()[m.src()]->0.kind == PieceType::Pawn && rules::occupied(
            p.board(),
            rules::ep_victim(p.stm, m.dst()),
        ) && m.src() != rules::ep_victim(p.stm, m.dst()),
        !m.takes_ep() ==> p.board()[m.dst()] is Some && p.board()[m.dst()]->0.kind.index() < 5,
{
    assert(!m.castles());
    let b = p.board();
    play::lemma_no_king_capture(p, m);
    assert(b[m.src()]->0.kind != PieceType::Empty);
    if m.takes_ep() {
        assert(p.en_passant matches Some(q) && q.at() == m.dst());
    } else {
        assert(rules::owned(b, m.dst(), p.stm.other()));
        assert(b[m.dst()]->0.kind != PieceType::Empty);
        if b[m.dst()]->0.kind == PieceType::King {
            assert(b[m.dst()] == rules::man(p.stm.other(), PieceType::King));
        }
    }
}

/// The man a quiet move shifts.
proof fn lemma_quiet_man(p: Position, m: Move)
    requires
        p.wf(),
        legal::pseudo_legal(p, m),
    ensures
        p.board()[m.src()] is Some,
        p.board()[m.src()]->0.kind != PieceType::Empty,
{
}

/// The shares of capture history are small.
proof fn lemma_learned(x: int, d: int)
    requires
        -32768 <= x <= 32767,
        4 <= d <= 64,
    ensures
        -8192 <= history::quotient(x, d) <= 8192,
{
    if x >= 0 {
        assert(0 <= x / d <= 8192) by (nonlinear_arith)
            requires
                0 <= x <= 32767,
                4 <= d,
        ;
    } else {
        let y = -x;
        assert(0 <= y / d <= 8192) by (nonlinear_arith)
            requires
                0 <= y <= 32768,
                4 <= d,
        ;
    }
}

impl Plan {
    /// Most valuable victim, least valuable attacker, and what history has learned.
    fn score_capture(&self, board: &Position, history: &History, mv: Move) -> (mark: u32)
        requires
            board.wf(),
            self.wf(*board),
            history.wf(),
            legal::pseudo_legal(*board, mv),
            mv.captures(),
        ensures
            mark == self.capture_mark(*board, *history, mv),
            mark <= 65535,
    {
        proof {
            lemma_capture_men(*board, mv);
        }
        let attacker = board.piece_at(mv.from());
        let victim = if mv.is_en_passant() {
            PieceType::Pawn
        } else {
            board.piece_at(mv.to())
        };
        let gain: i32 = self.mvvlva_v[victim.idx()];
        if let Some(promo) = mv.promo() {
            // A capture that promotes leaves capture history alone.
            assert(promo.index() < 5);
            return (SORT_BIAS + gain - self.mvvlva_a[0] + self.mvvlva_v[promo.idx()]) as u32;
        }
        let chist: i32 = history.score_capture(board.stm, attacker, mv.to(), victim);
        let divisor: i32 = self.capt_hist_divisor;
        proof {
            lemma_learned(chist as int, divisor as int);
        }
        let share: i32 = chist / divisor;
        assert(share == history::quotient(chist as int, divisor as int));
        if mv.is_en_passant() {
            return (SORT_BIAS + self.mvvlva_ep + share) as u32;
        }
        let cost: i32 = self.mvvlva_a[attacker.idx()];
        (SORT_BIAS + gain - cost + share) as u32
    }

    /// Promotions, killers, then history.
    fn score_quiet(&self, board: &Position, history: &History, mv: Move) -> (mark: u32)
        requires
            board.wf(),
            self.wf(*board),
            history.wf(),
            legal::pseudo_legal(*board, mv),
            !mv.captures(),
        ensures
            mark == self.quiet_mark(*board, *history, mv),
            mark <= 65535,
    {
        proof {
            lemma_quiet_man(*board, mv);
        }
        match mv.promo() {
            Some(PieceType::Queen) => PROMO_Q_SCORE,
            Some(PieceType::Knight) => PROMO_N_SCORE,
            Some(PieceType::Rook) => PROMO_R_SCORE,
            Some(_) => PROMO_B_SCORE,
            None => {
                if mv == self.killers[0] {
                    KILLER_SCORES[0]
                } else if mv == self.killers[1] {
                    KILLER_SCORES[1]
                } else {
                    let pt = board.piece_at(mv.from());
                    let worth: i32 = history.score_quiet(
                        board.stm,
                        pt,
                        mv.from(),
                        mv.to(),
                        self.threats,
                        self.cont1,
                        self.cont2,
                        self.cont4,
                    );
                    let raised: i32 = worth + SORT_BIAS;
                    if raised < 0 {
                        0
                    } else if raised > QUIET_SCORE_MAX {
                        QUIET_SCORE_MAX as u32
                    } else {
                        raised as u32
                    }
                }
            },
        }
    }

    /// Generates, marks and sorts one batch.
    fn collect(&self, board: &Position, history: &History, batch: Batch) -> (v: Vec<u32>)
        requires
            board.wf(),
            self.wf(*board),
            history.wf(),
        ensures
            ascending(v@),
            forall|i: int, j: int|
                0 <= i < v@.len() && 0 <= j < v@.len() && i != j ==> #[trigger] unpacked(v@[i]) != #[trigger] unpacked(v@[j]),
            forall|i: int| 0 <= i < v@.len() ==> {
                let m = #[trigger] unpacked(v@[i]);
                &&& m.canonical()
                &&& legal::pseudo_legal(*board, m)
                &&& batch.holds(m)
                &&& v@[i] == packed(self.mark(*board, *history, batch, m), m)
            },
            forall|m: Move| m.canonical() && legal::pseudo_legal(*board, m) && #[trigger] batch.holds(m) ==> listed(v@, m),
    {
        let list = match batch {
            Batch::Quiets => gen_pseudo_moves(board),
            _ => gen_tactical_moves(board),
        };
        let mut v: Vec<u32> = Vec::new();
        let mut k: usize = 0;
        while k < list.len()
            invariant
                board.wf(),
                self.wf(*board),
                history.wf(),
                k <= list@.len(),
                list@.no_duplicates(),
                forall|m: Move| #[trigger] list@.contains(m) ==> m.canonical() && legal::pseudo_legal(*board, m),
                forall|i: int| 0 <= i < v@.len() ==> {
                    let m = #[trigger] unpacked(v@[i]);
                    &&& m.canonical()
                    &&& legal::pseudo_legal(*board, m)
                    &&& batch.holds(m)
                    &&& v@[i] == packed(self.mark(*board, *history, batch, m), m)
                    &&& exists|j: int| 0 <= j < k && list@[j] == m
                },
                v@.no_duplicates(),
                forall|j: int| 0 <= j < k && batch.holds(#[trigger] list@[j]) ==> listed(v@, list@[j]),
            decreases list@.len() - k,
        {
            let mv = list.get(k);
            assert(list@.contains(mv));
            let ghost v0 = v@;
            if batch.takes(mv) {
                let mark: u32 = match batch {
                    Batch::Captures => self.score_capture(board, history, mv),
                    _ => {
                        assert(!mv.captures());
                        self.score_quiet(board, history, mv)
                    },
                };
                let x: u32 = pack(mark, mv);
                proof {
                    assert forall|i: int| 0 <= i < v0.len() implies v0[i] != x by {
                        let m = unpacked(v0[i]);
                        let j = choose|j: int| 0 <= j < k && list@[j] == m;
                        assert(list@[j] != list@[k as int]);
                    }
                }
                v.push(x);
                proof {
                    assert(v@ == v0.push(x));
                    assert(unpacked(v@[v0.len() as int]) == mv);
                    assert(listed(v@, mv));
                    assert(list@[k as int] == mv);
                    assert forall|i: int| 0 <= i < v@.len() implies {
                        let m = #[trigger] unpacked(v@[i]);
                        &&& m.canonical()
                        &&& legal::pseudo_legal(*board, m)
                        &&& batch.holds(m)
                        &&& v@[i] == packed(self.mark(*board, *history, batch, m), m)
                        &&& exists|j: int| 0 <= j < k + 1 && list@[j] == m
                    } by {
                        if i < v0.len() {
                            assert(v@[i] == v0[i]);
                            let m = unpacked(v0[i]);
                            let j = choose|j: int| 0 <= j < k && list@[j] == m;
                            assert(list@[j] == m);
                        }
                    }
                    assert forall|j: int| 0 <= j < k && batch.holds(#[trigger] list@[j]) implies listed(v@, list@[j]) by {
                        let i = choose|i: int| 0 <= i < v0.len() && #[trigger] unpacked(v0[i]) == list@[j];
                        assert(unpacked(v@[i]) == list@[j]);
                    }
                }
            }
            k = k + 1;
        }
        let ghost v1 = v@;
        sort_candidates(&mut v);
        proof {
            assert forall|i: int| 0 <= i < v@.len() implies {
                let m = #[trigger] unpacked(v@[i]);
                &&& m.canonical()
                &&& legal::pseudo_legal(*board, m)
                &&& batch.holds(m)
                &&& v@[i] == packed(self.mark(*board, *history, batch, m), m)
            } by {
                assert(v@.contains(v@[i]));
                assert(v1.contains(v@[i]));
                let j = choose|j: int| 0 <= j < v1.len() && v1[j] == v@[i];
                assert(unpacked(v1[j]) == unpacked(v@[i]));
            }
            assert forall|m: Move|
                m.canonical() && legal::pseudo_legal(*board, m) && #[trigger] batch.holds(m) implies listed(v@, m) by {
                assert(m.flag() < 16);
                assert(list@.contains(m));
                let j = choose|j: int| 0 <= j < list@.len() && list@[j] == m;
                assert(listed(v1, list@[j]));
                let i = choose|i: int| 0 <= i < v1.len() && #[trigger] unpacked(v1[i]) == m;
                assert(v1.contains(v1[i]));
                assert(v@.contains(v1[i]));
                let i2 = choose|i2: int| 0 <= i2 < v@.len() && v@[i2] == v1[i];
                assert(unpacked(v@[i2]) == m);
            }
            assert forall|i: int, j: int| 0 <= i < v@.len() && 0 <= j < v@.len() && i != j implies #[trigger] unpacked(v@[i])
                != #[trigger] unpacked(v@[j]) by {
                if unpacked(v@[i]) == unpacked(v@[j]) {
                    assert(v@[i] == v@[j]);
                }
            }
        }
        v
    }
}

/// Whether a pawn of the side to move can promote without capturing. Such a move outranks
/// the killers.
fn promotion_outranks_killers(board: &Position) -> (r: bool)
    requires
        board.wf(),
    ensures
        r <==> exists|m: Move| m.canonical() && m.promotes() && !m.captures() && #[trigger] legal::pseudo_legal(*board, m),
{
    let stm = board.stm;
    let up = Direction::North.relative(stm);
    let last: u64 = if stm == Color::White {
        0xff00_0000_0000_0000
    } else {
        0x0000_0000_0000_00ff
    };
    proof {
        bitboard::lemma_ranks();
    }
    let pushes = board.pieces(PieceType::Pawn, stm).shift(up).and(board.occupancy().not()).and(Bitboard(last));
    let r = pushes.is_not_empty();
    proof {
        let b = board.board();
        if r {
            let t = choose|t: int| #[trigger] pushes.has(t);
            let f = t - 8 * stm.up();
            assert(geom::on_board(f) && b[f] == rules::man(stm, PieceType::Pawn));
            let m = Move((f + t * 64 + 14 * 4096) as u16);
            assert(m.src() == f && m.dst() == t && m.flag() == 14);
            assert(legal::pawn_move(*board, m));
            assert(legal::pseudo_legal(*board, m));
        }
        if exists|m: Move| m.canonical() && m.promotes() && !m.captures() && #[trigger] legal::pseudo_legal(*board, m) {
            let m = choose|m: Move|
                m.canonical() && m.promotes() && !m.captures() && #[trigger] legal::pseudo_legal(*board, m);
            assert(b[m.src()]->0.kind == PieceType::Pawn);
            assert(pushes.has(m.dst()));
        }
    }
    r
}


/// Yields the moves of one node, best guesses first.
pub struct MovePicker {
    pub plan: Plan,
    pub stage: Stage,
    /// The marked moves of the current batch, best last.
    pub candidates: Vec<u32>,
    /// The captures that wait, best first.
    pub bad: Vec<u32>,
    /// How many of the waiting captures have been looked at.
    pub bad_next: usize,
    pub killer_idx: usize,
    pub killers_taken: [bool; 2],
    /// The moves yielded so far.
    pub yielded: Ghost<Set<Move>>,
}

impl MovePicker {
    /// Whether `m` was yielded as a killer.
    pub open spec fn taken(self, m: Move) -> bool {
        (self.killers_taken[0] && m == self.plan.killers[0]) || (self.killers_taken[1] && m == self.plan.killers[1])
    }

    /// Whether `m` waits among the bad captures.
    pub open spec fn waits(self, m: Move) -> bool {
        exists|i: int| self.bad_next <= i < self.bad@.len() && #[trigger] unpacked(self.bad@[i]) == m
    }

    /// A bound on the steps left within the stage.
    pub open spec fn pending(self) -> int {
        2 * self.candidates@.len() + (self.bad@.len() - self.bad_next) + (2 - self.killer_idx)
    }

    /// What is yielded, what is listed and what waits, in bookkeeping that loses no move
    /// and repeats none.
    pub open spec fn wf(self, p: Position) -> bool {
        &&& self.plan.wf(p)
        &&& self.killer_idx <= 2
        &&& self.bad_next <= self.bad@.len()
        &&& self.yields_sound(p)
        &&& self.lists_sound(p)
        &&& self.covered(p)
    }

    /// The yielded moves fit the stage.
    pub open spec fn yields_sound(self, p: Position) -> bool {
        &&& forall|m: Move| #[trigger]
            self.yielded@.contains(m) ==> legal::pseudo_legal(p, m) && (self.plan.is_hash(m) || self.plan.offered(p, m))
        &&& self.stage == Stage::Hash ==> forall|m: Move| !#[trigger] self.yielded@.contains(m)
        &&& self.stage != Stage::Hash ==> (self.plan.hash_move matches Some(m) ==> self.yielded@.contains(m))
        &&& self.stage == Stage::GenCaptures ==> forall|m: Move| #[trigger]
            self.yielded@.contains(m) ==> self.plan.is_hash(m)
        &&& self.stage == Stage::YieldCaptures ==> forall|m: Move| #[trigger]
            self.yielded@.contains(m) ==> self.plan.is_hash(m) || m.captures()
        &&& self.before_quiets() ==> forall|m: Move| #[trigger]
            self.yielded@.contains(m) ==> self.plan.is_hash(m) || m.captures() || self.taken(m)
        &&& forall|i: int| 0 <= i < 2 && #[trigger] self.killers_taken[i] ==> {
            &&& i < self.killer_idx
            &&& self.yielded@.contains(self.plan.killers[i])
        }
        &&& forall|i: int| 0 <= i < self.killer_idx && !#[trigger] self.killers_taken[i] ==> {
            ||| self.plan.is_hash(self.plan.killers[i])
            ||| !legal::pseudo_legal(p, self.plan.killers[i])
        }
        &&& self.stage.ahead() >= 6 ==> self.killer_idx == 0
        &&& self.stage.ahead() <= 4 ==> self.killer_idx == 0 || self.killer_idx == 2
        &&& self.killer_idx > 0 ==> forall|m: Move|
            m.canonical() && m.promotes() && !m.captures() ==> !#[trigger] legal::pseudo_legal(p, m)
    }

    /// The killers are up, or have been passed, and the quiets are not generated yet.
    pub open spec fn before_quiets(self) -> bool {
        self.stage == Stage::Killers || self.stage == Stage::GenQuiets || self.stage == Stage::GenQSearchQuiets
    }

    /// The listed and the waiting moves fit the stage.
    pub open spec fn lists_sound(self, p: Position) -> bool {
        &&& ascending(self.candidates@)
        &&& descending(self.bad@)
        &&& self.stage != Stage::YieldCaptures && self.stage != Stage::YieldQuiets ==> self.candidates@.len() == 0
        &&& self.stage.ahead() >= 7 ==> self.bad@.len() == 0
        &&& self.stage.ahead() >= 2 ==> self.bad_next == 0
        &&& forall|i: int| 0 <= i < self.bad@.len() ==> {
            let m = #[trigger] unpacked(self.bad@[i]);
            &&& m.canonical()
            &&& legal::pseudo_legal(p, m)
            &&& m.captures()
            &&& self.plan.deferred(p, m)
            &&& !self.plan.is_hash(m)
            &&& i >= self.bad_next ==> !self.yielded@.contains(m)
        }
        &&& forall|i: int, j: int|
            0 <= i < self.bad@.len() && 0 <= j < self.bad@.len() && i != j ==> #[trigger] unpacked(self.bad@[i])
                != #[trigger] unpacked(self.bad@[j])
        &&& forall|i: int, j: int|
            0 <= i < self.candidates@.len() && 0 <= j < self.candidates@.len() && i != j ==> #[trigger] unpacked(
                self.candidates@[i],
            ) != #[trigger] unpacked(self.candidates@[j])
        &&& self.stage == Stage::YieldCaptures ==> forall|i: int| 0 <= i < self.candidates@.len() ==> {
            let m = #[trigger] unpacked(self.candidates@[i]);
            &&& m.canonical()
            &&& legal::pseudo_legal(p, m)
            &&& m.captures()
            &&& self.yielded@.contains(m) ==> self.plan.is_hash(m)
            &&& !listed(self.bad@, m)
        }
        &&& self.stage == Stage::YieldCaptures ==> forall|i: int, j: int|
            0 <= i < self.candidates@.len() && 0 <= j < self.bad@.len() ==> #[trigger] self.bad@[j]
                > #[trigger] self.candidates@[i]
        &&& self.stage == Stage::YieldQuiets ==> forall|i: int| 0 <= i < self.candidates@.len() ==> {
            let m = #[trigger] unpacked(self.candidates@[i]);
            &&& self.plan.offered(p, m)
            &&& !m.captures()
            &&& self.yielded@.contains(m) ==> self.plan.is_hash(m) || self.taken(m)
        }
    }

    /// No move is lost.
    pub open spec fn covered(self, p: Position) -> bool {
        &&& self.stage == Stage::Killers || self.stage == Stage::GenQuiets ==> self.plan.full()
        &&& self.stage == Stage::GenQSearchQuiets ==> !self.plan.full()
        &&& self.stage == Stage::YieldCaptures ==> forall|m: Move| #[trigger]
            self.plan.offered(p, m) && m.captures() ==> self.yielded@.contains(m) || listed(self.candidates@, m)
                || self.waits(m)
        &&& self.stage.ahead() <= 5 ==> forall|m: Move| #[trigger]
            self.plan.offered(p, m) && m.captures() ==> self.yielded@.contains(m) || self.waits(m)
        &&& self.stage == Stage::YieldQuiets ==> forall|m: Move| #[trigger]
            self.plan.offered(p, m) && !m.captures() ==> self.yielded@.contains(m) || listed(self.candidates@, m)
        &&& self.stage.ahead() <= 1 ==> forall|m: Move| #[trigger]
            self.plan.offered(p, m) && !m.captures() ==> self.yielded@.contains(m)
        &&& self.stage == Stage::Done ==> self.bad_next == self.bad@.len()
    }

    /// Every mark in the lists is one that history `h` gives, and everything yielded ranks
    /// above everything to come.
    pub open spec fn steady(self, p: Position, h: History) -> bool {
        &&& forall|i: int| 0 <= i < self.bad@.len() ==> {
            let m = #[trigger] unpacked(self.bad@[i]);
            self.bad@[i] == packed(self.plan.capture_mark(p, h, m), m)
        }
        &&& self.stage == Stage::YieldCaptures ==> {
            &&& forall|i: int| 0 <= i < self.candidates@.len() ==> {
                let m = #[trigger] unpacked(self.candidates@[i]);
                self.candidates@[i] == packed(self.plan.capture_mark(p, h, m), m)
            }
            &&& forall|i: int, y: Move|
                0 <= i < self.candidates@.len() && #[trigger] self.yielded@.contains(y) && !self.plan.is_hash(y)
                    ==> packed(self.plan.capture_mark(p, h, y), y) > #[trigger] self.candidates@[i]
        }
        &&& self.stage.ahead() >= 2 ==> forall|y: Move| #[trigger]
            self.yielded@.contains(y) && !self.plan.is_hash(y) && y.captures() ==> !self.plan.deferred(p, y)
        &&& self.stage == Stage::YieldQuiets ==> {
            &&& forall|i: int| 0 <= i < self.candidates@.len() ==> {
                let m = #[trigger] unpacked(self.candidates@[i]);
                self.candidates@[i] == packed(self.plan.quiet_mark(p, h, m), m)
            }
            &&& forall|i: int, y: Move|
                0 <= i < self.candidates@.len() && #[trigger] self.yielded@.contains(y) && !self.plan.is_hash(y)
                    && !y.captures() ==> packed(self.plan.quiet_mark(p, h, y), y) > #[trigger] self.candidates@[i]
                    || self.plan.is_hash(unpacked(self.candidates@[i])) || self.taken(unpacked(self.candidates@[i]))
        }
        &&& self.stage.ahead() <= 1 ==> forall|i: int, y: Move|
            self.bad_next <= i < self.bad@.len() && #[trigger] self.yielded@.contains(y) && !self.plan.is_hash(y)
                && y.captures() && self.plan.deferred(p, y) ==> packed(self.plan.capture_mark(p, h, y), y)
                > #[trigger] self.bad@[i]
    }

    /// What one step from `a` to `b` that yields `r` does.
    pub open spec fn stepped(a: MovePicker, b: MovePicker, r: Option<Move>, p: Position) -> bool {
        &&& b.wf(p)
        &&& b.plan == a.plan
        &&& match r {
            Some(m) => {
                &&& legal::pseudo_legal(p, m)
                &&& a.plan.is_hash(m) || a.plan.offered(p, m)
                &&& !a.yielded@.contains(m)
                &&& b.yielded@ == a.yielded@.insert(m)
            },
            None => b.yielded@ == a.yielded@,
        }
        &&& b.stage.ahead() < a.stage.ahead() || (b.stage == a.stage && b.pending() < a.pending())
    }

    /// The step from `a` to `b` keeps the order that history `h` gives.
    pub open spec fn kept_order(a: MovePicker, b: MovePicker, r: Option<Move>, p: Position, h: History) -> bool {
        a.steady(p, h) ==> {
            &&& b.steady(p, h)
            &&& r matches Some(m) ==> forall|y: Move| #[trigger]
                a.yielded@.contains(y) ==> a.plan.rank(p, h, y) > a.plan.rank(p, h, m)
        }
    }

    /// A picker for a node of the main search.
    pub fn new(
        hash_move: Option<Move>,
        cfg: &SearchConfig,
        pins: Pins,
        killers: [Move; 2],
        threats: Bitboard,
        cont1: ContContext,
        cont2: ContContext,
        cont4: ContContext,
    ) -> (picker: MovePicker)
        requires
            cfg.wf(),
        ensures
            picker.stage == Stage::Hash,
            picker.fresh(),
            picker.plan.hash_move == hash_move,
            picker.plan.scaled(*cfg),
            picker.plan.pins == pins,
            picker.plan.killers == killers,
            picker.plan.threats == threats,
            picker.plan.cont1 == cont1,
            picker.plan.cont2 == cont2,
            picker.plan.cont4 == cont4,
            !picker.plan.is_qsearch,
            !picker.plan.in_check,
    {
        let plan = Plan {
            hash_move,
            good_capture_margin: cfg.search_params.good_capture_margin(),
            mvvlva_v: cfg.mvvlva_v,
            mvvlva_a: cfg.mvvlva_a,
            mvvlva_ep: cfg.search_params.mvvlva_ep(),
            capt_hist_divisor: cfg.search_params.capt_hist_divisor(),
            pins,
            killers,
            threats,
            cont1,
            cont2,
            cont4,
            is_qsearch: false,
            in_check: false,
        };
        MovePicker::start(plan)
    }

    /// A picker for a node of the quiescence search: captures and queen promotions, and
    /// every move where the side to move is in check.
    pub fn new_qsearch(hash_move: Option<Move>, cfg: &SearchConfig, pins: Pins, in_check: bool) -> (picker: MovePicker)
        requires
            cfg.wf(),
        ensures
            picker.stage == Stage::Hash,
            picker.fresh(),
            picker.plan.hash_move == hash_move,
            picker.plan.scaled(*cfg),
            picker.plan.pins == pins,
            picker.plan.killers[0].0 == 0 && picker.plan.killers[1].0 == 0,
            picker.plan.cont1.pt == PieceType::Empty && picker.plan.cont1.to.ok(),
            picker.plan.cont2.pt == PieceType::Empty && picker.plan.cont2.to.ok(),
            picker.plan.cont4.pt == PieceType::Empty && picker.plan.cont4.to.ok(),
            picker.plan.is_qsearch,
            picker.plan.in_check == in_check,
    {
        let plan = Plan {
            hash_move,
            good_capture_margin: cfg.search_params.good_capture_margin(),
            mvvlva_v: cfg.mvvlva_v,
            mvvlva_a: cfg.mvvlva_a,
            mvvlva_ep: cfg.search_params.mvvlva_ep(),
            capt_hist_divisor: cfg.search_params.capt_hist_divisor(),
            pins,
            killers: [Move::null(), Move::null()],
            threats: Bitboard(0),
            cont1: ContContext::none(),
            cont2: ContContext::none(),
            cont4: ContContext::none(),
            is_qsearch: true,
            in_check,
        };
        MovePicker::start(plan)
    }

    /// Nothing has been yielded yet.
    pub open spec fn fresh(self) -> bool {
        &&& self.stage == Stage::Hash
        &&& self.candidates@.len() == 0
        &&& self.bad@.len() == 0
        &&& self.bad_next == 0
        &&& self.killer_idx == 0
        &&& !self.killers_taken[0]
        &&& !self.killers_taken[1]
        &&& self.yielded@ == Set::<Move>::empty()
    }

    fn start(plan: Plan) -> (picker: MovePicker)
        ensures
            picker.plan == plan,
            picker.fresh(),
    {
        MovePicker {
            plan,
            stage: Stage::Hash,
            candidates: Vec::new(),
            bad: Vec::new(),
            bad_next: 0,
            killer_idx: 0,
            killers_taken: [false, false],
            yielded: Ghost(Set::empty()),
        }
    }

    /// A new picker keeps its books on any position that its plan fits, whatever the
    /// history.
    pub proof fn lemma_fresh(self, p: Position, h: History)
        requires
            self.fresh(),
            self.plan.wf(p),
        ensures
            self.wf(p),
            self.steady(p, h),
    {
    }
}

impl Plan {
    /// The scales of the plan are those of the configuration.
    pub open spec fn scaled(self, cfg: SearchConfig) -> bool {
        &&& self.good_capture_margin == cfg.search_params.good_capture_margin()
        &&& self.mvvlva_v == cfg.mvvlva_v
        &&& self.mvvlva_a == cfg.mvvlva_a
        &&& self.mvvlva_ep == cfg.search_params.mvvlva_ep()
        &&& self.capt_hist_divisor == cfg.search_params.capt_hist_divisor()
    }

    /// A plan fits a position where its moves, pins and contexts do: the configuration
    /// sees to the rest.
    pub proof fn lemma_fits(self, cfg: SearchConfig, p: Position)
        requires
            cfg.wf(),
            self.scaled(cfg),
            self.hash_move matches Some(m) ==> legal::pseudo_legal(p, m),
            self.pins.of(p),
            killer_like(self.killers[0]),
            killer_like(self.killers[1]),
            self.killers[0] != self.killers[1] || self.killers[0].0 == 0,
            self.cont1.to.ok(),
            self.cont2.to.ok(),
            self.cont4.to.ok(),
        ensures
            self.wf(p),
    {
        let sp = cfg.search_params;
        assert forall|i: int| 0 <= i < 7 implies 0 <= #[trigger] self.mvvlva_v[i] <= 15010 && 0 <= self.mvvlva_a[i] <= 150
            && (i < 5 ==> self.mvvlva_v[i] <= 1100) by {
            let pt = if i == 0 {
                PieceType::Pawn
            } else if i == 1 {
                PieceType::Knight
            } else if i == 2 {
                PieceType::Bishop
            } else if i == 3 {
                PieceType::Rook
            } else if i == 4 {
                PieceType::Queen
            } else if i == 5 {
                PieceType::King
            } else {
                PieceType::Empty
            };
            assert(pt.index() == i);
            assert(cfg.mvvlva_v[pt.index()] == config::victim_value(sp, pt));
            assert(cfg.mvvlva_a[pt.index()] == config::attacker_penalty(sp, pt));
        }
        assert forall|i: int| 0 <= i < 7 implies 0 <= #[trigger] self.mvvlva_a[i] <= 150 by {
            assert(0 <= self.mvvlva_v[i]);
        }
    }
}


impl MovePicker {
    /// The hash move, if there is one.
    fn yield_hash(&mut self, board: &Position, history: &History) -> (r: Option<Move>)
        requires
            board.wf(),
            history.wf(),
            old(self).wf(*board),
            old(self).stage == Stage::Hash,
        ensures
            MovePicker::stepped(*old(self), *final(self), r, *board),
            MovePicker::kept_order(*old(self), *final(self), r, *board, *history),
    {
        self.stage = Stage::GenCaptures;
        let r = self.plan.hash_move;
        proof {
            if let Some(m) = r {
                self.yielded@ = self.yielded@.insert(m);
            }
        }
        r
    }

    /// Generates the captures.
    fn gen_captures(&mut self, board: &Position, history: &History)
        requires
            board.wf(),
            history.wf(),
            old(self).wf(*board),
            old(self).stage == Stage::GenCaptures,
        ensures
            MovePicker::stepped(*old(self), *final(self), None, *board),
            MovePicker::kept_order(*old(self), *final(self), None, *board, *history),
    {
        self.candidates = self.plan.collect(board, history, Batch::Captures);
        self.stage = Stage::YieldCaptures;
        proof {
            let p = *board;
            let c = self.candidates@;
            assert forall|m: Move| #[trigger] self.plan.offered(p, m) && m.captures() implies listed(c, m) by {
                assert(Batch::Captures.holds(m));
            }
        }
    }

    /// Takes the best capture left, and yields it, defers it or drops it.
    fn pop_capture(&mut self, board: &Position, history: &History) -> (r: Option<Move>)
        requires
            board.wf(),
            history.wf(),
            old(self).wf(*board),
            old(self).stage == Stage::YieldCaptures,
        ensures
            MovePicker::stepped(*old(self), *final(self), r, *board),
            MovePicker::kept_order(*old(self), *final(self), r, *board, *history),
    {
        let ghost a = *self;
        let ghost p = *board;
        let ghost h = *history;
        match self.candidates.pop() {
            None => {
                self.stage = if self.plan.is_qsearch && !self.plan.in_check {
                    Stage::GenQSearchQuiets
                } else {
                    Stage::Killers
                };
                None
            },
            Some(x) => {
                let mv = unpack(x);
                assert(unpacked(a.candidates@[a.candidates@.len() - 1]) == mv);
                if self.plan.hash_move == Some(mv) {
                    proof {
                        lemma_hash_dropped(a, *self, p, h, x);
                    }
                    return None;
                }
                proof {
                    lemma_capture_men(p, mv);
                }
                if self.loses(board, mv) {
                    self.bad.push(x);
                    proof {
                        lemma_capture_parked(a, *self, p, h, x);
                    }
                    return None;
                }
                proof {
                    self.yielded@ = self.yielded@.insert(mv);
                    lemma_capture_yielded(a, *self, p, h, x);
                }
                Some(mv)
            },
        }
    }

    /// Whether a capture waits until the quiets are done.
    fn loses(&self, board: &Position, mv: Move) -> (r: bool)
        requires
            board.wf(),
            self.plan.wf(*board),
            legal::pseudo_legal(*board, mv),
            mv.captures(),
        ensures
            r == self.plan.deferred(*board, mv),
    {
        // Promotions skip the test, and so does the quiescence search, which prunes losing
        // captures itself.
        if self.plan.is_qsearch || mv.is_promotion() {
            return false;
        }
        proof {
            lemma_capture_men(*board, mv);
        }
        let attacker = board.piece_at(mv.from());
        let victim = if mv.is_en_passant() {
            PieceType::Pawn
        } else {
            board.piece_at(mv.to())
        };
        let victim_val: i32 = self.plan.mvvlva_v[victim.idx()];
        let attacker_val: i32 = self.plan.mvvlva_v[attacker.idx()];
        victim_val < attacker_val && !see_ge(board, mv, -self.plan.good_capture_margin, &self.plan.pins)
    }

    /// Tries the next killer. Both killers outrank every quiet that history marks, so a
    /// cutoff here spares generating the quiets.
    fn next_killer(&mut self, board: &Position, history: &History) -> (r: Option<Move>)
        requires
            board.wf(),
            history.wf(),
            old(self).wf(*board),
            old(self).stage == Stage::Killers,
        ensures
            MovePicker::stepped(*old(self), *final(self), r, *board),
            MovePicker::kept_order(*old(self), *final(self), r, *board, *history),
    {
        let ghost a = *self;
        let ghost p = *board;
        if self.killer_idx == 2 || (self.killer_idx == 0 && promotion_outranks_killers(board)) {
            self.stage = Stage::GenQuiets;
            return None;
        }
        let i: usize = self.killer_idx;
        let mv = self.plan.killers[i];
        self.killer_idx = i + 1;
        assert(forall|m: Move| #[trigger] self.waits(m) == a.waits(m));
        if !mv.is_null() && self.plan.hash_move != Some(mv) && is_pseudo_legal(board, mv) {
            self.killers_taken[i] = true;
            proof {
                assert(!a.killers_taken[i as int]);
                if a.yielded@.contains(mv) {
                    assert(a.taken(mv));
                    assert(a.plan.killers[0] != a.plan.killers[1]);
                }
                self.yielded@ = self.yielded@.insert(mv);
                assert forall|m: Move| #[trigger] self.taken(m) <==> a.taken(m) || m == mv by {}
                assert forall|y: Move| a.steady(p, *history) && #[trigger] a.yielded@.contains(y) implies a.plan.rank(
                    p,
                    *history,
                    y,
                ) > a.plan.rank(p, *history, mv) by {
                    lemma_marks(a.plan, p, *history, y);
                    lemma_marks(a.plan, p, *history, mv);
                }
            }
            return Some(mv);
        }
        None
    }

    /// Generates the quiets.
    fn gen_quiets(&mut self, board: &Position, history: &History)
        requires
            board.wf(),
            history.wf(),
            old(self).wf(*board),
            old(self).stage == Stage::GenQuiets || old(self).stage == Stage::GenQSearchQuiets,
        ensures
            MovePicker::stepped(*old(self), *final(self), None, *board),
            MovePicker::kept_order(*old(self), *final(self), None, *board, *history),
    {
        let ghost a = *self;
        let ghost p = *board;
        let ghost h = *history;
        let batch = if self.stage == Stage::GenQuiets {
            Batch::Quiets
        } else {
            Batch::QueenPushes
        };
        self.candidates = self.plan.collect(board, history, batch);
        self.stage = Stage::YieldQuiets;
        proof {
            let c = self.candidates@;
            assert(forall|m: Move| #[trigger] self.waits(m) == a.waits(m));
            assert(forall|m: Move| #[trigger] self.taken(m) == a.taken(m));
            assert forall|m: Move| #[trigger] self.plan.offered(p, m) && !m.captures() implies listed(c, m) by {
                assert(batch.holds(m));
            }
            assert forall|i: int| 0 <= i < c.len() implies {
                let m = #[trigger] unpacked(c[i]);
                &&& self.plan.offered(p, m)
                &&& !m.captures()
            } by {
                assert(batch.holds(unpacked(c[i])));
            }
            if a.steady(p, h) {
                assert forall|i: int, y: Move|
                    0 <= i < c.len() && #[trigger] self.yielded@.contains(y) && !self.plan.is_hash(y) && !y.captures() implies packed(
                    self.plan.quiet_mark(p, h, y),
                    y,
                ) > #[trigger] c[i] || self.plan.is_hash(unpacked(c[i])) || self.taken(unpacked(c[i])) by {
                    let m = unpacked(c[i]);
                    assert(a.taken(y));
                    lemma_marks(a.plan, p, h, y);
                    lemma_marks(a.plan, p, h, m);
                    assert(a.killers_taken[0] || a.killers_taken[1]);
                    assert(a.killer_idx == 2);
                    if m == a.plan.killers[0] {
                        assert(a.killers_taken[0] || a.plan.is_hash(m));
                    } else if m == a.plan.killers[1] {
                        assert(a.killers_taken[1] || a.plan.is_hash(m));
                    }
                }
            }
        }
    }

    /// Takes the best quiet left, and yields it or drops it.
    fn pop_quiet(&mut self, board: &Position, history: &History) -> (r: Option<Move>)
        requires
            board.wf(),
            history.wf(),
            old(self).wf(*board),
            old(self).stage == Stage::YieldQuiets,
        ensures
            MovePicker::stepped(*old(self), *final(self), r, *board),
            MovePicker::kept_order(*old(self), *final(self), r, *board, *history),
    {
        let ghost a = *self;
        let ghost p = *board;
        let ghost h = *history;
        match self.candidates.pop() {
            None => {
                self.stage = Stage::YieldBadCaptures;
                proof {
                    assert(self.bad == a.bad && self.bad_next == a.bad_next);
                    assert forall|m: Move| #[trigger] self.waits(m) == a.waits(m) by {}
                    assert(forall|m: Move| !#[trigger] listed(a.candidates@, m));
                }
                None
            },
            Some(x) => {
                let mv = unpack(x);
                assert(unpacked(a.candidates@[a.candidates@.len() - 1]) == mv);
                let taken = (self.killers_taken[0] && mv == self.plan.killers[0]) || (self.killers_taken[1] && mv
                    == self.plan.killers[1]);
                if self.plan.hash_move == Some(mv) || taken {
                    proof {
                        lemma_hash_dropped(a, *self, p, h, x);
                    }
                    return None;
                }
                proof {
                    self.yielded@ = self.yielded@.insert(mv);
                    lemma_quiet_yielded(a, *self, p, h, x);
                }
                Some(mv)
            },
        }
    }

    /// Yields the next of the captures that waited.
    fn pop_bad(&mut self, board: &Position, history: &History) -> (r: Option<Move>)
        requires
            board.wf(),
            history.wf(),
            old(self).wf(*board),
            old(self).stage == Stage::YieldBadCaptures,
        ensures
            MovePicker::stepped(*old(self), *final(self), r, *board),
            MovePicker::kept_order(*old(self), *final(self), r, *board, *history),
    {
        let ghost a = *self;
        let ghost p = *board;
        let ghost h = *history;
        if self.bad_next == self.bad.len() {
            self.stage = Stage::Done;
            return None;
        }
        let mv = unpack(self.bad[self.bad_next]);
        self.bad_next = self.bad_next + 1;
        proof {
            assert(unpacked(a.bad@[a.bad_next as int]) == mv);
            self.yielded@ = self.yielded@.insert(mv);
            assert forall|m: Move| #[trigger] a.waits(m) implies self.waits(m) || m == mv by {
                let i = choose|i: int| a.bad_next <= i < a.bad@.len() && #[trigger] unpacked(a.bad@[i]) == m;
                if i > a.bad_next {
                    assert(unpacked(self.bad@[i]) == m);
                }
            }
            if a.steady(p, h) {
                assert(a.bad@[a.bad_next as int] == packed(a.plan.capture_mark(p, h, mv), mv));
                assert forall|y: Move| #[trigger] a.yielded@.contains(y) implies a.plan.rank(p, h, y) > a.plan.rank(
                    p,
                    h,
                    mv,
                ) by {
                    lemma_marks(a.plan, p, h, y);
                    lemma_marks(a.plan, p, h, mv);
                    if y.captures() && a.plan.deferred(p, y) && !a.plan.is_hash(y) {
                        assert(packed(a.plan.capture_mark(p, h, y), y) > a.bad@[a.bad_next as int]);
                    }
                }
            }
        }
        Some(mv)
    }

    /// Yields the next move, or `None` when every move has been.
    ///
    /// Each move that the plan offers comes once, the hash move first; and as long as the
    /// history stays the same they come in the order of their ranks.
    pub fn next(&mut self, board: &Position, history: &History) -> (r: Option<Move>)
        requires
            board.wf(),
            history.wf(),
            old(self).wf(*board),
        ensures
            final(self).wf(*board),
            final(self).plan == old(self).plan,
            MovePicker::kept_order(*old(self), *final(self), r, *board, *history),
            // Once everything has come, nothing more does.
            (forall|m: Move| old(self).plan.is_hash(m) || #[trigger] old(self).plan.offered(*board, m) ==> old(
                self,
            ).yielded@.contains(m)) ==> r is None,
            match r {
                Some(m) => {
                    &&& legal::pseudo_legal(*board, m)
                    &&& old(self).plan.is_hash(m) || old(self).plan.offered(*board, m)
                    &&& !old(self).yielded@.contains(m)
                    &&& final(self).yielded@ == old(self).yielded@.insert(m)
                    &&& final(self).stage.ahead() < old(self).stage.ahead() || (final(self).stage == old(self).stage
                        && final(self).pending() < old(self).pending())
                },
                None => {
                    &&& final(self).yielded@ == old(self).yielded@
                    &&& forall|m: Move| #[trigger]
                        old(self).plan.offered(*board, m) ==> old(self).yielded@.contains(m)
                    &&& old(self).plan.hash_move matches Some(m) ==> old(self).yielded@.contains(m)
                },
            },
    {
        let ghost a = *self;
        loop
            invariant
                board.wf(),
                history.wf(),
                self.wf(*board),
                self.plan == a.plan,
                self.yielded@ == a.yielded@,
                a == *old(self),
                MovePicker::kept_order(a, *self, None, *board, *history),
                self.stage.ahead() < a.stage.ahead() || (self.stage == a.stage && self.pending() <= a.pending()),
            decreases self.stage.ahead(), self.pending(),
        {
            let r = match self.stage {
                Stage::Hash => self.yield_hash(board, history),
                Stage::GenCaptures => {
                    self.gen_captures(board, history);
                    None
                },
                Stage::YieldCaptures => self.pop_capture(board, history),
                Stage::Killers => self.next_killer(board, history),
                Stage::GenQSearchQuiets => {
                    self.gen_quiets(board, history);
                    None
                },
                Stage::GenQuiets => {
                    self.gen_quiets(board, history);
                    None
                },
                Stage::YieldQuiets => self.pop_quiet(board, history),
                Stage::YieldBadCaptures => self.pop_bad(board, history),
                Stage::Done => return None,
            };
            if r.is_some() {
                return r;
            }
        }
    }
}

/// Marks stay in their bands.
proof fn lemma_marks(plan: Plan, p: Position, h: History, m: Move)
    requires
        p.wf(),
        plan.wf(p),
        h.wf(),
        legal::pseudo_legal(p, m),
    ensures
        m.captures() ==> 0 <= plan.capture_mark(p, h, m) <= 65535,
        !m.captures() ==> 0 <= plan.quiet_mark(p, h, m) <= 65535,
        !m.captures() && !m.promotes() && m != plan.killers[0] && m != plan.killers[1] ==> plan.quiet_mark(p, h, m) <= 63000,
{
    if m.captures() {
        lemma_capture_men(p, m);
        let d = h.capt.data@[CaptureHistory::place(
            p.stm,
            p.board()[m.src()]->0.kind,
            Square(m.dst() as u8),
            plan.victim(p, m),
        )];
        lemma_learned(d as int, plan.capt_hist_divisor as int);
        assert(0 <= plan.mvvlva_v[plan.victim(p, m).index()] <= 1100);
        assert(0 <= plan.mvvlva_a[p.board()[m.src()]->0.kind.index()] <= 150);
        if m.promotes() {
            assert(m.promoted().index() < 5);
            assert(0 <= plan.mvvlva_v[m.promoted().index()] <= 1100);
        }
    }
}

/// Yielding a quiet.
proof fn lemma_quiet_yielded(a: MovePicker, b: MovePicker, p: Position, h: History, x: u32)
    requires
        p.wf(),
        h.wf(),
        a.wf(p),
        a.stage == Stage::YieldQuiets,
        popped(a, b, x),
        !a.plan.is_hash(unpacked(x)),
        !a.taken(unpacked(x)),
        b.bad@ == a.bad@,
        b.yielded@ == a.yielded@.insert(unpacked(x)),
    ensures
        MovePicker::stepped(a, b, Some(unpacked(x)), p),
        MovePicker::kept_order(a, b, Some(unpacked(x)), p, h),
{
    lemma_others(a, b, p, x);
    let mv = unpacked(x);
    assert(unpacked(a.candidates@[a.candidates@.len() - 1]) == mv);
    assert(forall|m: Move| #[trigger] b.waits(m) == a.waits(m));
    assert(forall|m: Move| #[trigger] b.taken(m) == a.taken(m));
    if a.steady(p, h) {
        assert(x == packed(a.plan.quiet_mark(p, h, mv), mv));
        assert forall|y: Move| #[trigger] a.yielded@.contains(y) implies a.plan.rank(p, h, y) > a.plan.rank(p, h, mv) by {
            lemma_marks(a.plan, p, h, y);
            lemma_marks(a.plan, p, h, mv);
            if !a.plan.is_hash(y) && !y.captures() {
                assert(packed(a.plan.quiet_mark(p, h, y), y) > a.candidates@[a.candidates@.len() - 1]);
            }
        }
    }
}

/// `b` is `a` with the last candidate taken off, the bad captures and what is yielded apart.
spec fn popped(a: MovePicker, b: MovePicker, x: u32) -> bool {
    &&& a.candidates@.len() > 0
    &&& x == a.candidates@.last()
    &&& b.candidates@ == a.candidates@.drop_last()
    &&& b.plan == a.plan
    &&& b.stage == a.stage
    &&& b.bad_next == a.bad_next
    &&& b.killer_idx == a.killer_idx
    &&& b.killers_taken == a.killers_taken
}

/// The other candidates are other moves.
proof fn lemma_others(a: MovePicker, b: MovePicker, p: Position, x: u32)
    requires
        a.lists_sound(p),
        popped(a, b, x),
    ensures
        forall|m: Move| #[trigger] listed(a.candidates@, m) <==> listed(b.candidates@, m) || m == unpacked(x),
        ascending(b.candidates@),
        forall|i: int| 0 <= i < b.candidates@.len() ==> #[trigger] b.candidates@[i] == a.candidates@[i],
        forall|i: int| 0 <= i < b.candidates@.len() ==> #[trigger] b.candidates@[i] < x,
        forall|i: int| 0 <= i < b.candidates@.len() ==> #[trigger] unpacked(b.candidates@[i]) != unpacked(x),
        forall|i: int| 0 <= i < b.candidates@.len() ==> #[trigger] unpacked(b.candidates@[i]) == unpacked(a.candidates@[i]),
{
    lemma_popped(a.candidates@, b.candidates@, x);
    assert forall|i: int| 0 <= i < b.candidates@.len() implies #[trigger] unpacked(b.candidates@[i]) != unpacked(x) by {
        assert(unpacked(a.candidates@[i]) != unpacked(a.candidates@[a.candidates@.len() - 1]));
    }
}

/// Dropping the hash move, which is yielded already.
proof fn lemma_hash_dropped(a: MovePicker, b: MovePicker, p: Position, h: History, x: u32)
    requires
        a.wf(p),
        a.stage == Stage::YieldCaptures || a.stage == Stage::YieldQuiets,
        popped(a, b, x),
        a.plan.is_hash(unpacked(x)) || a.taken(unpacked(x)),
        b.bad@ == a.bad@,
        b.yielded@ == a.yielded@,
    ensures
        MovePicker::stepped(a, b, None, p),
        MovePicker::kept_order(a, b, None, p, h),
{
    lemma_others(a, b, p, x);
    assert(b.yielded@.contains(unpacked(x))) by {
        assert(a.killers_taken[0] || a.killers_taken[1] || a.plan.is_hash(unpacked(x)));
    }
    assert(forall|m: Move| b.waits(m) == a.waits(m));
    assert(forall|m: Move| b.taken(m) == a.taken(m));
}

/// Deferring a capture.
proof fn lemma_capture_parked(a: MovePicker, b: MovePicker, p: Position, h: History, x: u32)
    requires
        a.wf(p),
        a.stage == Stage::YieldCaptures,
        popped(a, b, x),
        !a.plan.is_hash(unpacked(x)),
        a.plan.deferred(p, unpacked(x)),
        b.bad@ == a.bad@.push(x),
        b.yielded@ == a.yielded@,
    ensures
        MovePicker::stepped(a, b, None, p),
        MovePicker::kept_order(a, b, None, p, h),
{
    lemma_others(a, b, p, x);
    lemma_parked(a.bad@, x);
    let mv = unpacked(x);
    assert(unpacked(a.candidates@[a.candidates@.len() - 1]) == mv);
    assert forall|i: int| 0 <= i < a.bad@.len() implies #[trigger] unpacked(b.bad@[i]) != mv && b.bad@[i] == a.bad@[i] by {
        if unpacked(a.bad@[i]) == mv {
            assert(listed(a.bad@, mv));
        }
    }
    assert forall|m: Move| #[trigger] b.waits(m) <==> a.waits(m) || m == mv by {
        if a.waits(m) {
            let i = choose|i: int| a.bad_next <= i < a.bad@.len() && #[trigger] unpacked(a.bad@[i]) == m;
            assert(unpacked(b.bad@[i]) == m);
        }
        if m == mv {
            assert(unpacked(b.bad@[a.bad@.len() as int]) == m);
        }
        if b.waits(m) {
            let i = choose|i: int| b.bad_next <= i < b.bad@.len() && #[trigger] unpacked(b.bad@[i]) == m;
            if i < a.bad@.len() {
                assert(unpacked(a.bad@[i]) == m);
            }
        }
    }
}

/// Yielding a capture.
proof fn lemma_capture_yielded(a: MovePicker, b: MovePicker, p: Position, h: History, x: u32)
    requires
        a.wf(p),
        a.stage == Stage::YieldCaptures,
        popped(a, b, x),
        !a.plan.is_hash(unpacked(x)),
        !a.plan.deferred(p, unpacked(x)),
        b.bad@ == a.bad@,
        b.yielded@ == a.yielded@.insert(unpacked(x)),
    ensures
        MovePicker::stepped(a, b, Some(unpacked(x)), p),
        MovePicker::kept_order(a, b, Some(unpacked(x)), p, h),
{
    lemma_others(a, b, p, x);
    let mv = unpacked(x);
    assert(unpacked(a.candidates@[a.candidates@.len() - 1]) == mv);
    assert(forall|m: Move| b.waits(m) == a.waits(m));
    assert(forall|m: Move| b.taken(m) == a.taken(m));
    assert(b.lists_sound(p)) by {
        assert forall|i: int| 0 <= i < b.bad@.len() implies #[trigger] unpacked(b.bad@[i]) != mv by {
            if unpacked(a.bad@[i]) == mv {
                assert(listed(a.bad@, mv));
            }
        }
    }
    if a.steady(p, h) {
        assert(x == packed(a.plan.capture_mark(p, h, mv), mv));
        assert forall|y: Move| #[trigger] a.yielded@.contains(y) implies a.plan.rank(p, h, y) > a.plan.rank(p, h, mv) by {
            if !a.plan.is_hash(y) {
                assert(packed(a.plan.capture_mark(p, h, y), y) > a.candidates@[a.candidates@.len() - 1]);
            }
        }
    }
}

/// Taking the last number off a list takes its move off.
proof fn lemma_popped(c: Seq<u32>, d: Seq<u32>, x: u32)
    requires
        c.len() > 0,
        d == c.drop_last(),
        x == c.last(),
    ensures
        forall|m: Move| #[trigger] listed(c, m) <==> listed(d, m) || m == unpacked(x),
        ascending(c) ==> ascending(d) && forall|i: int| 0 <= i < d.len() ==> #[trigger] d[i] < x,
{
    assert forall|m: Move| #[trigger] listed(c, m) <==> listed(d, m) || m == unpacked(x) by {
        if listed(c, m) {
            let i = choose|i: int| 0 <= i < c.len() && #[trigger] unpacked(c[i]) == m;
            if i < d.len() {
                assert(unpacked(d[i]) == m);
            }
        }
        if listed(d, m) {
            let i = choose|i: int| 0 <= i < d.len() && #[trigger] unpacked(d[i]) == m;
            assert(unpacked(c[i]) == m);
        }
        if m == unpacked(x) {
            assert(unpacked(c[c.len() - 1]) == m);
        }
    }
    if ascending(c) {
        assert forall|i: int, j: int| 0 <= i < j < d.len() implies d[i] < d[j] by {
            assert(c[i] < c[j]);
        }
        assert forall|i: int| 0 <= i < d.len() implies #[trigger] d[i] < x by {
            assert(c[i] < c[c.len() - 1]);
        }
    }
}

/// Putting a number at the end of a list puts its move there.
proof fn lemma_parked(b: Seq<u32>, x: u32)
    ensures
        forall|m: Move| #[trigger] listed(b.push(x), m) <==> listed(b, m) || m == unpacked(x),
{
    let d = b.push(x);
    assert forall|m: Move| #[trigger] listed(d, m) <==> listed(b, m) || m == unpacked(x) by {
        if listed(b, m) {
            let i = choose|i: int| 0 <= i < b.len() && #[trigger] unpacked(b[i]) == m;
            assert(unpacked(d[i]) == m);
        }
        if m == unpacked(x) {
            assert(unpacked(d[b.len() as int]) == m);
        }
        if listed(d, m) {
            let i = choose|i: int| 0 <= i < d.len() && #[trigger] unpacked(d[i]) == m;
            if i < b.len() {
                assert(unpacked(b[i]) == m);
            }
        }
    }
}

/// Every stage together yields the moves of the position, each once: an exhausted picker
/// of the main search without a hash move has yielded the pseudo-legal moves and no other.
pub proof fn law_all_stages_together_yield_every_move(picker: MovePicker, p: Position)
    requires
        picker.wf(p),
        picker.stage == Stage::Done,
        picker.plan.hash_move is None,
        picker.plan.full(),
    ensures
        forall|m: Move| #[trigger]
            picker.yielded@.contains(m) <==> m.canonical() && legal::pseudo_legal(p, m),
{
    assert forall|m: Move| m.canonical() && legal::pseudo_legal(p, m) implies #[trigger] picker.yielded@.contains(m) by {
        assert(picker.plan.offered(p, m));
        assert(!picker.waits(m));
    }
}

/// No two moves rank alike, so the order of yielding is settled.
pub proof fn law_no_two_moves_rank_alike(plan: Plan, p: Position, h: History, a: Move, b: Move)
    requires
        p.wf(),
        plan.wf(p),
        h.wf(),
        legal::pseudo_legal(p, a),
        legal::pseudo_legal(p, b),
        a != b,
    ensures
        plan.rank(p, h, a) != plan.rank(p, h, b),
{
    lemma_marks(plan, p, h, a);
    lemma_marks(plan, p, h, b);
    let x = if a.captures() {
        plan.capture_mark(p, h, a)
    } else {
        plan.quiet_mark(p, h, a)
    };
    let y = if b.captures() {
        plan.capture_mark(p, h, b)
    } else {
        plan.quiet_mark(p, h, b)
    };
    lemma_packed_apart(x, y, a, b);
}

/// Packed numbers of different moves differ, by less than one band.
proof fn lemma_packed_apart(x: int, y: int, a: Move, b: Move)
    requires
        0 <= x <= 65535,
        0 <= y <= 65535,
        a != b,
    ensures
        packed(x, a) != packed(y, b),
        0 <= packed(x, a) < 0x1_0000_0000,
        0 <= packed(y, b) < 0x1_0000_0000,
{
}

/// The moves that a picker of the main search without a hash move yields, one call after the
/// other until none is left, are those of `list`, what move generation gives, in another order.
pub proof fn law_a_picker_yields_what_is_generated(pickers: Seq<MovePicker>, ms: Seq<Move>, p: Position, list: Seq<Move>)
    requires
        pickers.len() == ms.len() + 1,
        pickers[0].yielded@ == Set::<Move>::empty(),
        forall|i: int|
            0 <= i < ms.len() ==> {
                &&& !pickers[i].yielded@.contains(#[trigger] ms[i])
                &&& pickers[i + 1].yielded@ == pickers[i].yielded@.insert(ms[i])
            },
        pickers.last().wf(p),
        pickers.last().plan.hash_move is None,
        pickers.last().plan.full(),
        forall|m: Move| #[trigger]
            pickers.last().plan.offered(p, m) ==> pickers.last().yielded@.contains(m),
        list.no_duplicates(),
        forall|m: Move| #[trigger] list.contains(m) <==> m.canonical() && legal::pseudo_legal(p, m),
    ensures
        ms.to_multiset() =~= list.to_multiset(),
        ms.no_duplicates(),
{
    let last = pickers.last();
    lemma_yields_so_far(pickers, ms, ms.len() as int);
    assert forall|m: Move| #[trigger] ms.contains(m) <==> list.contains(m) by {
        assert(ms.take(ms.len() as int) =~= ms);
        assert(ms.contains(m) <==> last.yielded@.contains(m));
        if m.canonical() && legal::pseudo_legal(p, m) {
            assert(last.plan.offered(p, m));
        }
    }
    assert(ms.take(ms.len() as int) =~= ms);
    movegen::lemma_counted(ms);
    movegen::lemma_counted(list);
    assert forall|m: Move| ms.to_multiset().count(m) == list.to_multiset().count(m) by {}
}

/// The first `n` moves are what picker `n` has yielded, each once.
proof fn lemma_yields_so_far(pickers: Seq<MovePicker>, ms: Seq<Move>, n: int)
    requires
        0 <= n <= ms.len(),
        pickers.len() == ms.len() + 1,
        pickers[0].yielded@ == Set::<Move>::empty(),
        forall|i: int|
            0 <= i < ms.len() ==> {
                &&& !pickers[i].yielded@.contains(#[trigger] ms[i])
                &&& pickers[i + 1].yielded@ == pickers[i].yielded@.insert(ms[i])
            },
    ensures
        ms.take(n).no_duplicates(),
        forall|m: Move| #[trigger] ms.take(n).contains(m) <==> pickers[n].yielded@.contains(m),
    decreases n,
{
    if n > 0 {
        lemma_yields_so_far(pickers, ms, n - 1);
        let a = ms.take(n - 1);
        let b = ms.take(n);
        assert(b =~= a.push(ms[n - 1]));
        assert forall|m: Move| #[trigger] b.contains(m) <==> pickers[n].yielded@.contains(m) by {
            if a.contains(m) {
                let k = choose|k: int| 0 <= k < a.len() && a[k] == m;
                assert(b[k] == m);
            }
            if m == ms[n - 1] {
                assert(b[n - 1] == m);
            }
            if b.contains(m) && m != ms[n - 1] {
                let k = choose|k: int| 0 <= k < b.len() && b[k] == m;
                assert(a[k] == m);
            }
        }
        assert(b.no_duplicates()) by {
            assert forall|i: int, j: int| 0 <= i < b.len() && 0 <= j < b.len() && i != j implies b[i] != b[j] by {
                if i < n - 1 && j < n - 1 {
                    assert(a[i] == b[i] && a[j] == b[j]);
                } else if i < n - 1 {
                    assert(a[i] == b[i]);
                    assert(a.contains(a[i]));
                } else {
                    assert(a[j] == b[j]);
                    assert(a.contains(a[j]));
                }
            }
        }
    }
}

/// Of the quiet moves the promotions come first, a queen before a knight, a knight before a rook
/// and a rook before a bishop; then the killers, the first before the second; and then the rest
/// by what history says of them.
pub proof fn law_quiet_moves_come_by_promotion_killers_and_history(plan: Plan, p: Position, h: History, a: Move, b: Move)
    ensures
        a.promotes() && !b.promotes() ==> plan.quiet_mark(p, h, a) > plan.quiet_mark(p, h, b),
        a.promotes() && b.promotes() && a.promoted() == PieceType::Queen && b.promoted() != PieceType::Queen
            ==> plan.quiet_mark(p, h, a) > plan.quiet_mark(p, h, b),
        a.promotes() && b.promotes() && a.promoted() == PieceType::Knight && (b.promoted() == PieceType::Rook || b.promoted()
            == PieceType::Bishop) ==> plan.quiet_mark(p, h, a) > plan.quiet_mark(p, h, b),
        a.promotes() && b.promotes() && a.promoted() == PieceType::Rook && b.promoted() == PieceType::Bishop ==> plan.quiet_mark(
            p,
            h,
            a,
        ) > plan.quiet_mark(p, h, b),
        !a.promotes() && !b.promotes() && a == plan.killers[0] && b != a ==> plan.quiet_mark(p, h, a) > plan.quiet_mark(p, h, b),
        !a.promotes() && !b.promotes() && a == plan.killers[1] && b != a && b != plan.killers[0] ==> plan.quiet_mark(p, h, a)
            > plan.quiet_mark(p, h, b),
        !a.promotes() && a != plan.killers[0] && a != plan.killers[1] && !b.promotes() && plan.quiet_worth(p, h, a)
            >= plan.quiet_worth(p, h, b) && b != plan.killers[0] && b != plan.killers[1] ==> plan.quiet_mark(p, h, a)
            >= plan.quiet_mark(p, h, b),
        !a.promotes() && a != plan.killers[0] && a != plan.killers[1] && !b.promotes() && b != plan.killers[0] && b
            != plan.killers[1] && -SORT_BIAS <= plan.quiet_worth(p, h, b) <= plan.quiet_worth(p, h, a) <= 30000
            ==> plan.quiet_mark(p, h, a) - plan.quiet_mark(p, h, b) == plan.quiet_worth(p, h, a) - plan.quiet_worth(p, h, b),
{
}

/// The table's move goes before all others, captures that do not lose go before quiet moves, and
/// quiet moves before captures that do.
pub proof fn law_moves_come_in_stages(plan: Plan, p: Position, h: History, a: Move, b: Move)
    requires
        p.wf(),
        plan.wf(p),
        h.wf(),
        legal::pseudo_legal(p, a),
        legal::pseudo_legal(p, b),
        !plan.is_hash(b),
    ensures
        plan.is_hash(a) ==> plan.rank(p, h, a) > plan.rank(p, h, b),
        !plan.is_hash(a) && a.captures() && !plan.deferred(p, a) && !b.captures() ==> plan.rank(p, h, a) > plan.rank(p, h, b),
        !plan.is_hash(a) && !a.captures() && b.captures() && plan.deferred(p, b) ==> plan.rank(p, h, a) > plan.rank(p, h, b),
        !plan.is_hash(a) && a.captures() && b.captures() && plan.deferred(p, a) == plan.deferred(p, b) && plan.capture_mark(p, h, a)
            > plan.capture_mark(p, h, b) ==> plan.rank(p, h, a) > plan.rank(p, h, b),
        !plan.is_hash(a) && !a.captures() && !b.captures() && plan.quiet_mark(p, h, a) > plan.quiet_mark(p, h, b) ==> plan.rank(
            p,
            h,
            a,
        ) > plan.rank(p, h, b),
{
    lemma_marks(plan, p, h, a);
    lemma_marks(plan, p, h, b);
}

/// A capture that gains as much as it risks, or whose exchange does not lose, is never put off;
/// nor is any in the quiescence search.
pub proof fn law_only_losing_captures_are_put_off(plan: Plan, p: Position, m: Move)
    requires
        plan.wf(p),
    ensures
        see::exchange(p, m) >= 0 ==> !plan.deferred(p, m),
        plan.is_qsearch || m.promotes() ==> !plan.deferred(p, m),
        plan.mvvlva_v[plan.victim(p, m).index()] >= plan.mvvlva_v[p.board()[m.src()]->0.kind.index()] ==> !plan.deferred(p, m),
        !plan.is_qsearch && !m.promotes() && see::exchange(p, m) < -300 && plan.mvvlva_v[plan.victim(p, m).index()]
            < plan.mvvlva_v[p.board()[m.src()]->0.kind.index()] ==> plan.deferred(p, m),
{
}

/// Captures of which history thinks alike are ordered by the man that falls, and among those by
/// the man that captures, the cheaper first.
pub proof fn law_captures_come_by_victim_and_attacker(plan: Plan, p: Position, h: History, a: Move, b: Move)
    requires
        !a.promotes() && !b.promotes() && !a.takes_ep() && !b.takes_ep(),
        plan.learned(p, h, a) == plan.learned(p, h, b),
    ensures
        p.board()[a.src()]->0.kind == p.board()[b.src()]->0.kind ==> plan.capture_mark(p, h, a) - plan.capture_mark(p, h, b)
            == plan.mvvlva_v[p.board()[a.dst()]->0.kind.index()] - plan.mvvlva_v[p.board()[b.dst()]->0.kind.index()],
        p.board()[a.dst()]->0.kind == p.board()[b.dst()]->0.kind ==> plan.capture_mark(p, h, a) - plan.capture_mark(p, h, b)
            == plan.mvvlva_a[p.board()[b.src()]->0.kind.index()] - plan.mvvlva_a[p.board()[a.src()]->0.kind.index()],
{
}

/// What history says of a capture is toned down by its divisor and keeps its sign; a pawn that is
/// taken in passing counts as a pawn.
pub proof fn law_capture_history_is_toned_down(plan: Plan, p: Position, h: History, m: Move, e: int)
    requires
        plan.wf(p),
        e == h.capt.data@[CaptureHistory::place(
            p.stm,
            p.board()[m.src()]->0.kind,
            Square(m.dst() as u8),
            if m.takes_ep() {
                PieceType::Pawn
            } else {
                p.board()[m.dst()]->0.kind
            },
        )],
    ensures
        e >= 0 ==> 0 <= plan.learned(p, h, m) * plan.capt_hist_divisor <= e < (plan.learned(p, h, m) + 1) * plan.capt_hist_divisor,
        e <= 0 ==> 0 >= plan.learned(p, h, m) * plan.capt_hist_divisor >= e > (plan.learned(p, h, m) - 1) * plan.capt_hist_divisor,
{
    let d = plan.capt_hist_divisor as int;
    let x = plan.learned(p, h, m);
    let q = (if e >= 0 {
        e
    } else {
        -e
    });
    assert(0 <= (q / d) * d <= q < (q / d + 1) * d && (-(q / d)) * d == -((q / d) * d) && (-(q / d) - 1) * d == -((q / d + 1)
        * d)) by (nonlinear_arith)
        requires
            d > 0,
            q >= 0,
    ;
}

/// The move comes out of a packed number as it went in, and a higher mark always wins.
pub proof fn law_marks_decide_before_moves(x: u16, y: u16, a: Move, b: Move)
    ensures
        unpacked(packed(x as int, a) as u32) == a,
        x < y ==> packed(x as int, a) < packed(y as int, b),
        0 <= packed(x as int, a) <= u32::MAX,
{
}

/// Outside the quiescence search, and in check, all moves are offered; else captures and queen
/// promotions alone.
pub proof fn law_what_is_offered(plan: Plan, p: Position, m: Move)
    requires
        m.canonical(),
        legal::pseudo_legal(p, m),
    ensures
        !plan.is_qsearch || plan.in_check ==> plan.offered(p, m),
        m.captures() || m.flag() == Move::PROM_Q ==> plan.offered(p, m),
        plan.is_qsearch && !plan.in_check && !m.captures() && m.flag() != Move::PROM_Q ==> !plan.offered(p, m),
{
}

} // verus!
