//! History heuristics for move ordering and static evaluation correction.
//!
//! A move that caused a cutoff once tends to again, so the search records the success and
//! orders by it next time. Four tables do that, each keyed on a different slice of context:
//!
//! - main: `[side][piece][to]`, quiet moves.
//! - butterfly: `[side][from attacked][to attacked][from, to]`, the same quiets.
//! - continuation: a move 1, 2 or 4 plies back paired with the reply.
//! - capture: `[side][attacker][to][victim]`.
//!
//! Correction history orders nothing: it tracks the error between static evaluation and
//! what search found, keyed on pawn, minor and major structure.

use vstd::prelude::*;

use crate::chess::bitboard::Bitboard;
use crate::chess::types::{Color, PieceType, Square};
use crate::engine::search_params::SearchParams;

verus! {

pub const CORRECTION_SIZE: usize = 16384;

pub const CORRECTION_SCALE: i32 = 256;

pub const CORRECTION_LIMIT: i32 = 8192;

/// The denominator of the blend weights of correction tables.
pub const CORRECTION_WEIGHT_SCALE: i32 = 256;

/// Division that drops the fraction, as machine integers divide.
pub open spec fn quotient(a: int, b: int) -> int {
    if a >= 0 {
        a / b
    } else {
        -((-a) / b)
    }
}

/// `x` moved into the range from `lo` to `hi`.
pub open spec fn clamped(x: int, lo: int, hi: int) -> int {
    if x < lo {
        lo
    } else if x > hi {
        hi
    } else {
        x
    }
}

/// A table of `n` zeros.
fn zeros_i16(n: usize) -> (v: Vec<i16>)
    ensures
        v@.len() == n,
        forall|i: int| 0 <= i < n ==> #[trigger] v@[i] == 0,
{
    let mut v: Vec<i16> = Vec::with_capacity(n);
    while v.len() < n
        invariant
            v@.len() <= n,
            forall|i: int| 0 <= i < v@.len() ==> #[trigger] v@[i] == 0,
        decreases n - v@.len(),
    {
        v.push(0);
    }
    v
}

/// A table of `n` zeros.
fn zeros_i32(n: usize) -> (v: Vec<i32>)
    ensures
        v@.len() == n,
        forall|i: int| 0 <= i < n ==> #[trigger] v@[i] == 0,
{
    let mut v: Vec<i32> = Vec::with_capacity(n);
    while v.len() < n
        invariant
            v@.len() <= n,
            forall|i: int| 0 <= i < v@.len() ==> #[trigger] v@[i] == 0,
        decreases n - v@.len(),
    {
        v.push(0);
    }
    v
}

/// The bounds of the ordering tables, taken from the parameters before each search. The
/// same value bounds an entry and divides the pull towards that bound.
#[derive(Clone, Copy, Debug)]
pub struct HistoryCaps {
    pub quiet: i32,
    pub butterfly: i32,
    pub cont: i32,
    pub capt: i32,
}

impl HistoryCaps {
    /// No bound is zero and none is beyond what an entry holds.
    pub open spec fn wf(self) -> bool {
        &&& 0 < self.quiet <= 32767
        &&& 0 < self.butterfly <= 32767
        &&& 0 < self.cont <= 32767
        &&& 0 < self.capt <= 32767
    }

    /// The bounds that parameters ask for.
    pub open spec fn of(sp: SearchParams) -> HistoryCaps {
        HistoryCaps {
            quiet: sp.quiet_hist_cap(),
            butterfly: sp.butterfly_hist_cap(),
            cont: sp.cont_hist_cap(),
            capt: sp.capt_hist_cap(),
        }
    }

    /// The bounds that parameters ask for.
    pub fn from_params(sp: &SearchParams) -> (c: HistoryCaps)
        requires
            sp.wf(),
        ensures
            c.wf(),
            c == HistoryCaps::of(*sp),
    {
        HistoryCaps {
            quiet: sp.quiet_hist_cap(),
            butterfly: sp.butterfly_hist_cap(),
            cont: sp.cont_hist_cap(),
            capt: sp.capt_hist_cap(),
        }
    }
}

/// A move some plies back: the man that moved and where it went. `Empty` stands for none.
#[derive(Clone, Copy, Debug, PartialEq, Eq, Structural)]
pub struct ContContext {
    pub pt: PieceType,
    pub to: Square,
}

impl ContContext {
    /// No move.
    pub fn none() -> (c: ContContext)
        ensures
            c.pt == PieceType::Empty,
            c.to.0 == 0,
    {
        ContContext { pt: PieceType::Empty, to: Square(0) }
    }
}

/// What one step of soft gravity makes of an entry: it moves by `bonus` less a share of
/// itself that grows with the bonus, and stays within `cap`.
pub open spec fn pulled(entry: int, bonus: int, cap: int) -> int {
    clamped(entry + bonus - quotient(entry * vstd::math::abs(bonus), cap), -cap, cap)
}

/// Applies one step of soft gravity.
fn update_entry(entry: i16, bonus: i32, cap: i32) -> (r: i16)
    requires
        0 < cap <= 32767,
        -65535 <= bonus <= 65535,
    ensures
        r == pulled(entry as int, bonus as int, cap as int),
        -cap <= r <= cap,
{
    let e: i32 = entry as i32;
    let size: i32 = if bonus < 0 {
        -bonus
    } else {
        bonus
    };
    assert(-2147385345 - 65535 <= e * size <= 2147385345) by (nonlinear_arith)
        requires
            -32768 <= e <= 32767,
            0 <= size <= 65535,
    ;
    let prod: i64 = e as i64 * size as i64;
    let share: i64 = prod / cap as i64;
    proof {
        lemma_quotient(prod as int, cap as int);
    }
    let sum: i64 = e as i64 + bonus as i64 - share;
    let c: i64 = cap as i64;
    let r: i64 = if sum < -c {
        -c
    } else if sum > c {
        c
    } else {
        sum
    };
    r as i16
}

/// The quotient is no farther from zero than the dividend.
pub proof fn lemma_quotient(a: int, b: int)
    requires
        b > 0,
    ensures
        a >= 0 ==> 0 <= quotient(a, b) <= a,
        a < 0 ==> a <= quotient(a, b) <= 0,
{
    if a >= 0 {
        assert(0 <= a / b <= a) by (nonlinear_arith)
            requires
                a >= 0,
                b > 0,
        ;
    } else {
        assert(0 <= (-a) / b <= -a) by (nonlinear_arith)
            requires
                a < 0,
                b > 0,
        ;
    }
}

/// A recent move paired with the reply to it.
#[derive(Clone, Debug)]
pub struct ContinuationHistory {
    pub data: Vec<i16>,
}

impl ContinuationHistory {
    /// The number of entries.
    pub open spec fn size() -> int {
        294912
    }

    pub open spec fn wf(self) -> bool {
        self.data@.len() == ContinuationHistory::size()
    }

    /// The place of an entry.
    pub open spec fn place(stm: Color, prev_pt: PieceType, prev_to: Square, pt: PieceType, to: Square) -> int {
        (((stm.index() * 6 + prev_pt.index()) * 64 + prev_to.at()) * 6 + pt.index()) * 64 + to.at()
    }

    /// Whether the arguments name an entry.
    pub open spec fn fits(prev_pt: PieceType, prev_to: Square, pt: PieceType, to: Square) -> bool {
        prev_pt != PieceType::Empty && pt != PieceType::Empty && prev_to.ok() && to.ok()
    }

    /// A table of zeros.
    pub fn new() -> (t: ContinuationHistory)
        ensures
            t.wf(),
            forall|i: int| 0 <= i < ContinuationHistory::size() ==> #[trigger] t.data@[i] == 0,
    {
        ContinuationHistory { data: zeros_i16(294912) }
    }

    /// Sets every entry to zero.
    pub fn clear(&mut self)
        ensures
            final(self).wf(),
            forall|i: int| 0 <= i < ContinuationHistory::size() ==> #[trigger] final(self).data@[i] == 0,
    {
        self.data = zeros_i16(294912);
    }

    fn idx(stm: Color, prev_pt: PieceType, prev_to: Square, pt: PieceType, to: Square) -> (i: usize)
        requires
            ContinuationHistory::fits(prev_pt, prev_to, pt, to),
        ensures
            i == ContinuationHistory::place(stm, prev_pt, prev_to, pt, to),
            i < ContinuationHistory::size(),
    {
        (((stm.idx() * 6 + prev_pt.idx()) * 64 + prev_to.0 as usize) * 6 + pt.idx()) * 64 + to.0 as usize
    }

    /// An entry.
    pub fn get(&self, stm: Color, prev_pt: PieceType, prev_to: Square, pt: PieceType, to: Square) -> (r: i16)
        requires
            self.wf(),
            ContinuationHistory::fits(prev_pt, prev_to, pt, to),
        ensures
            r == self.data@[ContinuationHistory::place(stm, prev_pt, prev_to, pt, to)],
    {
        self.data[ContinuationHistory::idx(stm, prev_pt, prev_to, pt, to)]
    }

    /// An entry to write to.
    pub fn get_mut(&mut self, stm: Color, prev_pt: PieceType, prev_to: Square, pt: PieceType, to: Square) -> (r: &mut i16)
        requires
            old(self).wf(),
            ContinuationHistory::fits(prev_pt, prev_to, pt, to),
        ensures
            *r == old(self).data@[ContinuationHistory::place(stm, prev_pt, prev_to, pt, to)],
            final(self).data@ == old(self).data@.update(
                ContinuationHistory::place(stm, prev_pt, prev_to, pt, to),
                *final(r),
            ),
    {
        let i: usize = ContinuationHistory::idx(stm, prev_pt, prev_to, pt, to);
        &mut self.data[i]
    }
}

/// How often captures caused cutoffs. Promotions that capture are kept out, on reading and
/// writing alike.
#[derive(Clone, Debug)]
pub struct CaptureHistory {
    pub data: Vec<i16>,
}

impl CaptureHistory {
    pub open spec fn size() -> int {
        4608
    }

    pub open spec fn wf(self) -> bool {
        self.data@.len() == CaptureHistory::size()
    }

    /// The place of an entry.
    pub open spec fn place(stm: Color, attacker: PieceType, to: Square, victim: PieceType) -> int {
        ((stm.index() * 6 + attacker.index()) * 64 + to.at()) * 6 + victim.index()
    }

    /// Whether the arguments name an entry.
    pub open spec fn fits(attacker: PieceType, to: Square, victim: PieceType) -> bool {
        attacker != PieceType::Empty && victim != PieceType::Empty && to.ok()
    }

    /// A table of zeros.
    pub fn new() -> (t: CaptureHistory)
        ensures
            t.wf(),
            forall|i: int| 0 <= i < CaptureHistory::size() ==> #[trigger] t.data@[i] == 0,
    {
        CaptureHistory { data: zeros_i16(4608) }
    }

    /// Sets every entry to zero.
    pub fn clear(&mut self)
        ensures
            final(self).wf(),
            forall|i: int| 0 <= i < CaptureHistory::size() ==> #[trigger] final(self).data@[i] == 0,
    {
        self.data = zeros_i16(4608);
    }

    fn idx(stm: Color, attacker: PieceType, to: Square, victim: PieceType) -> (i: usize)
        requires
            CaptureHistory::fits(attacker, to, victim),
        ensures
            i == CaptureHistory::place(stm, attacker, to, victim),
            i < CaptureHistory::size(),
    {
        ((stm.idx() * 6 + attacker.idx()) * 64 + to.0 as usize) * 6 + victim.idx()
    }

    /// An entry.
    pub fn get(&self, stm: Color, attacker: PieceType, to: Square, victim: PieceType) -> (r: i16)
        requires
            self.wf(),
            CaptureHistory::fits(attacker, to, victim),
        ensures
            r == self.data@[CaptureHistory::place(stm, attacker, to, victim)],
    {
        self.data[CaptureHistory::idx(stm, attacker, to, victim)]
    }

    /// An entry to write to.
    pub fn get_mut(&mut self, stm: Color, attacker: PieceType, to: Square, victim: PieceType) -> (r: &mut i16)
        requires
            old(self).wf(),
            CaptureHistory::fits(attacker, to, victim),
        ensures
            *r == old(self).data@[CaptureHistory::place(stm, attacker, to, victim)],
            final(self).data@ == old(self).data@.update(CaptureHistory::place(stm, attacker, to, victim), *final(r)),
    {
        let i: usize = CaptureHistory::idx(stm, attacker, to, victim);
        &mut self.data[i]
    }
}

/// Moving averages of `search score - static evaluation`, in centipawns times
/// [`CORRECTION_SCALE`], one per side and key.
#[derive(Clone, Debug)]
pub struct CorrectionHistory {
    pub data: Vec<i32>,
}

/// The moving average after an observation at `depth`: the observation weighs
/// `min((1 + depth)^2 / 4, 32)` out of 256.
pub open spec fn blended(entry: int, raw_diff: int, depth: int) -> int {
    let square = (1 + depth) * (1 + depth) / 4;
    let weight = if square < 32 {
        square
    } else {
        32
    };
    clamped(
        quotient(entry * (256 - weight) + raw_diff * CORRECTION_SCALE * weight, 256),
        -CORRECTION_LIMIT as int,
        CORRECTION_LIMIT as int,
    )
}

impl CorrectionHistory {
    pub open spec fn size() -> int {
        32768
    }

    /// Every average is within the limit.
    pub open spec fn wf(self) -> bool {
        &&& self.data@.len() == CorrectionHistory::size()
        &&& forall|i: int|
            0 <= i < CorrectionHistory::size() ==> -CORRECTION_LIMIT <= #[trigger] self.data@[i] <= CORRECTION_LIMIT
    }

    /// The place of the entry of side `stm` and key `hash`.
    pub open spec fn place(stm: Color, hash: u64) -> int {
        stm.index() * CORRECTION_SIZE + (hash % 16384) as int
    }

    /// A table of zeros.
    pub fn new() -> (t: CorrectionHistory)
        ensures
            t.wf(),
            forall|i: int| 0 <= i < CorrectionHistory::size() ==> #[trigger] t.data@[i] == 0,
    {
        CorrectionHistory { data: zeros_i32(32768) }
    }

    /// Sets every entry to zero.
    pub fn clear(&mut self)
        ensures
            final(self).wf(),
            forall|i: int| 0 <= i < CorrectionHistory::size() ==> #[trigger] final(self).data@[i] == 0,
    {
        self.data = zeros_i32(32768);
    }

    fn idx(stm: Color, hash: u64) -> (i: usize)
        ensures
            i == CorrectionHistory::place(stm, hash),
            i < CorrectionHistory::size(),
    {
        stm.idx() * CORRECTION_SIZE + (hash % 16384) as usize
    }

    /// The average of side `stm` and key `hash`.
    pub fn get(&self, stm: Color, hash: u64) -> (r: i32)
        requires
            self.wf(),
        ensures
            r == self.data@[CorrectionHistory::place(stm, hash)],
            -CORRECTION_LIMIT <= r <= CORRECTION_LIMIT,
    {
        self.data[CorrectionHistory::idx(stm, hash)]
    }

    /// Adds an observation to an average.
    pub fn update(&mut self, stm: Color, hash: u64, raw_diff: i32, depth: i32)
        requires
            old(self).wf(),
        ensures
            final(self).wf(),
            final(self).data@ == old(self).data@.update(
                CorrectionHistory::place(stm, hash),
                blended(
                    old(self).data@[CorrectionHistory::place(stm, hash)] as int,
                    raw_diff as int,
                    depth as int,
                ) as i32,
            ),
    {
        let i: usize = CorrectionHistory::idx(stm, hash);
        let entry: i32 = self.data[i];
        let d: i64 = 1 + depth as i64;
        assert(0 <= d * d <= 2147483648 * 2147483648) by (nonlinear_arith)
            requires
                -2147483648 <= d <= 2147483648,
        ;
        let square: i64 = d * d / 4;
        let w: i64 = if square < 32 {
            square
        } else {
            32
        };
        let scaled: i64 = raw_diff as i64 * 256;
        assert(-2147483648 * 256 * 32 <= scaled * w <= 2147483648 * 256 * 32) by (nonlinear_arith)
            requires
                -2147483648 * 256 <= scaled <= 2147483648 * 256,
                0 <= w <= 32,
        ;
        assert(-8192 * 256 <= entry * (256 - w) <= 8192 * 256) by (nonlinear_arith)
            requires
                -8192 <= entry <= 8192,
                0 <= w <= 32,
        ;
        let sum: i64 = entry as i64 * (256 - w) + scaled * w;
        let mean: i64 = sum / 256;
        proof {
            lemma_quotient(sum as int, 256);
        }
        let limit: i64 = CORRECTION_LIMIT as i64;
        let r: i64 = if mean < -limit {
            -limit
        } else if mean > limit {
            limit
        } else {
            mean
        };
        self.data[i] = r as i32;
    }
}

/// The place of a pair of squares in a butterfly table.
pub open spec fn butterfly_place(from: Square, to: Square) -> int {
    from.at() * 64 + to.at()
}

/// 1 for true.
pub open spec fn flag(b: bool) -> int {
    if b {
        1
    } else {
        0
    }
}

/// All the tables of one thread.
#[derive(Clone, Debug)]
pub struct History {
    /// `[side][piece][to]`.
    pub table: Vec<i16>,
    /// `[side][from attacked][to attacked][from, to]`.
    pub butterfly: Vec<i16>,
    /// One ply back.
    pub cont_near: ContinuationHistory,
    /// Two and four plies back share a table on purpose.
    pub cont_far: ContinuationHistory,
    /// Keyed by pawns.
    pub pawn_correction: CorrectionHistory,
    /// Keyed by knights and bishops.
    pub minor_correction: CorrectionHistory,
    /// Keyed by rooks and queens.
    pub major_correction: CorrectionHistory,
    /// Captures.
    pub capt: CaptureHistory,
    /// The bounds of the ordering tables.
    pub caps: HistoryCaps,
}

impl History {
    /// Every table has its size, every correction its limit and every bound is usable.
    pub open spec fn wf(self) -> bool {
        &&& self.table@.len() == 768
        &&& self.butterfly@.len() == 32768
        &&& self.cont_near.wf()
        &&& self.cont_far.wf()
        &&& self.pawn_correction.wf()
        &&& self.minor_correction.wf()
        &&& self.major_correction.wf()
        &&& self.capt.wf()
        &&& self.caps.wf()
    }

    /// Every entry of every table is zero.
    pub open spec fn blank(self) -> bool {
        &&& forall|i: int| 0 <= i < self.table@.len() ==> #[trigger] self.table@[i] == 0
        &&& forall|i: int| 0 <= i < self.butterfly@.len() ==> #[trigger] self.butterfly@[i] == 0
        &&& forall|i: int| 0 <= i < self.cont_near.data@.len() ==> #[trigger] self.cont_near.data@[i] == 0
        &&& forall|i: int| 0 <= i < self.cont_far.data@.len() ==> #[trigger] self.cont_far.data@[i] == 0
        &&& forall|i: int| 0 <= i < self.pawn_correction.data@.len() ==> #[trigger] self.pawn_correction.data@[i] == 0
        &&& forall|i: int| 0 <= i < self.minor_correction.data@.len() ==> #[trigger] self.minor_correction.data@[i] == 0
        &&& forall|i: int| 0 <= i < self.major_correction.data@.len() ==> #[trigger] self.major_correction.data@[i] == 0
        &&& forall|i: int| 0 <= i < self.capt.data@.len() ==> #[trigger] self.capt.data@[i] == 0
    }

    /// The place of a quiet move in the main table.
    pub open spec fn main_place(stm: Color, pt: PieceType, to: Square) -> int {
        (stm.index() * 6 + pt.index()) * 64 + to.at()
    }

    /// The place of a quiet move in the butterfly table.
    pub open spec fn fly_place(stm: Color, from: Square, to: Square, threats: Bitboard) -> int {
        ((stm.index() * 2 + flag(threats.has(from.at()))) * 2 + flag(threats.has(to.at()))) * 4096 + butterfly_place(from, to)
    }

    /// Tables of zeros, with the default bounds.
    pub fn new() -> (h: History)
        ensures
            h.wf(),
            h.blank(),
            h.caps == (HistoryCaps { quiet: 8265, butterfly: 10303, cont: 11324, capt: 12190 }),
    {
        History {
            table: zeros_i16(768),
            butterfly: zeros_i16(32768),
            cont_near: ContinuationHistory::new(),
            cont_far: ContinuationHistory::new(),
            pawn_correction: CorrectionHistory::new(),
            minor_correction: CorrectionHistory::new(),
            major_correction: CorrectionHistory::new(),
            capt: CaptureHistory::new(),
            caps: HistoryCaps::from_params(&SearchParams::new()),
        }
    }

    /// Sets every entry to zero and leaves the bounds.
    pub fn clear(&mut self)
        requires
            old(self).caps.wf(),
        ensures
            final(self).wf(),
            final(self).blank(),
            final(self).caps == old(self).caps,
    {
        self.table = zeros_i16(768);
        self.butterfly = zeros_i16(32768);
        self.cont_near.clear();
        self.cont_far.clear();
        self.pawn_correction.clear();
        self.minor_correction.clear();
        self.major_correction.clear();
        self.capt.clear();
    }

    fn main_idx(stm: Color, pt: PieceType, to: Square) -> (i: usize)
        requires
            pt != PieceType::Empty,
            to.ok(),
        ensures
            i == History::main_place(stm, pt, to),
            i < 768,
    {
        (stm.idx() * 6 + pt.idx()) * 64 + to.0 as usize
    }

    fn fly_idx(stm: Color, from: Square, to: Square, threats: Bitboard) -> (i: usize)
        requires
            from.ok(),
            to.ok(),
        ensures
            i == History::fly_place(stm, from, to, threats),
            i < 32768,
    {
        let f: usize = if threats.check_bit(from) {
            1
        } else {
            0
        };
        let t: usize = if threats.check_bit(to) {
            1
        } else {
            0
        };
        ((stm.idx() * 2 + f) * 2 + t) * 4096 + (from.0 as usize * 64 + to.0 as usize)
    }

    /// What the continuation table `t` says of the move, nothing where there is no context.
    pub open spec fn cont_worth(t: ContinuationHistory, stm: Color, ctx: ContContext, pt: PieceType, to: Square) -> int {
        if ctx.pt == PieceType::Empty {
            0
        } else {
            t.data@[ContinuationHistory::place(stm, ctx.pt, ctx.to, pt, to)] as int
        }
    }

    fn cont_score(t: &ContinuationHistory, stm: Color, ctx: ContContext, pt: PieceType, to: Square) -> (r: i32)
        requires
            t.wf(),
            pt != PieceType::Empty,
            to.ok(),
            ctx.to.ok(),
        ensures
            r == History::cont_worth(*t, stm, ctx, pt, to),
            -32768 <= r <= 32767,
    {
        if ctx.pt == PieceType::Empty {
            0
        } else {
            t.get(stm, ctx.pt, ctx.to, pt, to) as i32
        }
    }

    /// The sum of what the main, butterfly and continuation tables say of a quiet move.
    pub fn score_quiet(
        &self,
        stm: Color,
        pt: PieceType,
        from: Square,
        to: Square,
        threats: Bitboard,
        cont1: ContContext,
        cont2: ContContext,
        cont4: ContContext,
    ) -> (r: i32)
        requires
            self.wf(),
            pt != PieceType::Empty,
            from.ok(),
            to.ok(),
            cont1.to.ok(),
            cont2.to.ok(),
            cont4.to.ok(),
        ensures
            r == self.table@[History::main_place(stm, pt, to)] + self.butterfly@[History::fly_place(stm, from, to, threats)]
                + History::cont_worth(self.cont_near, stm, cont1, pt, to) + History::cont_worth(
                self.cont_far,
                stm,
                cont2,
                pt,
                to,
            ) + History::cont_worth(self.cont_far, stm, cont4, pt, to),
            -163840 <= r <= 163840,
    {
        let m: i32 = self.table[History::main_idx(stm, pt, to)] as i32;
        let f: i32 = self.butterfly[History::fly_idx(stm, from, to, threats)] as i32;
        let c1: i32 = History::cont_score(&self.cont_near, stm, cont1, pt, to);
        let c2: i32 = History::cont_score(&self.cont_far, stm, cont2, pt, to);
        let c4: i32 = History::cont_score(&self.cont_far, stm, cont4, pt, to);
        m + f + c1 + c2 + c4
    }

    /// The continuation table after the reply `pt` to `to` has earned `bonus` in context.
    pub open spec fn cont_pulled(
        t: Seq<i16>,
        stm: Color,
        ctx: ContContext,
        pt: PieceType,
        to: Square,
        bonus: int,
        cap: int,
    ) -> Seq<i16> {
        if ctx.pt == PieceType::Empty {
            t
        } else {
            let i = ContinuationHistory::place(stm, ctx.pt, ctx.to, pt, to);
            t.update(i, pulled(t[i] as int, bonus, cap) as i16)
        }
    }

    fn cont_update(
        t: &mut ContinuationHistory,
        stm: Color,
        ctx: ContContext,
        pt: PieceType,
        to: Square,
        bonus: i32,
        cap: i32,
    )
        requires
            old(t).wf(),
            pt != PieceType::Empty,
            to.ok(),
            ctx.to.ok(),
            0 < cap <= 32767,
            -65535 <= bonus <= 65535,
        ensures
            final(t).wf(),
            final(t).data@ == History::cont_pulled(old(t).data@, stm, ctx, pt, to, bonus as int, cap as int),
    {
        if ctx.pt != PieceType::Empty {
            let entry = t.get_mut(stm, ctx.pt, ctx.to, pt, to);
            *entry = update_entry(*entry, bonus, cap);
        }
    }

    /// The continuation entries of a reply have moved by `bonus` since `o`, and nothing else.
    pub open spec fn cont_taught(
        self,
        o: History,
        stm: Color,
        pt: PieceType,
        to: Square,
        conts: (ContContext, ContContext, ContContext),
        bonus: int,
    ) -> bool {
        &&& self.cont_near.data@ == History::cont_pulled(
            o.cont_near.data@,
            stm,
            conts.0,
            pt,
            to,
            bonus,
            o.caps.cont as int,
        )
        &&& self.cont_far.data@ == History::cont_pulled(
            History::cont_pulled(
                o.cont_far.data@,
                stm,
                conts.1,
                pt,
                to,
                bonus,
                o.caps.cont as int,
            ),
            stm,
            conts.2,
            pt,
            to,
            bonus,
            o.caps.cont as int,
        )
        &&& self.table == o.table
        &&& self.butterfly == o.butterfly
        &&& self.capt == o.capt
        &&& self.pawn_correction == o.pawn_correction
        &&& self.minor_correction == o.minor_correction
        &&& self.major_correction == o.major_correction
        &&& self.caps == o.caps
    }

    /// The main, butterfly and continuation entries of a quiet move have moved by `bonus` since
    /// `o`, and nothing else.
    pub open spec fn quiet_taught(
        self,
        o: History,
        stm: Color,
        pt: PieceType,
        from: Square,
        to: Square,
        threats: Bitboard,
        conts: (ContContext, ContContext, ContContext),
        bonus: int,
    ) -> bool {
        &&& self.table@ == o.table@.update(
            History::main_place(stm, pt, to),
            pulled(
                o.table@[History::main_place(stm, pt, to)] as int,
                bonus,
                o.caps.quiet as int,
            ) as i16,
        )
        &&& self.butterfly@ == o.butterfly@.update(
            History::fly_place(stm, from, to, threats),
            pulled(
                o.butterfly@[History::fly_place(stm, from, to, threats)] as int,
                bonus,
                o.caps.butterfly as int,
            ) as i16,
        )
        &&& self.cont_near.data@ == History::cont_pulled(
            o.cont_near.data@,
            stm,
            conts.0,
            pt,
            to,
            bonus,
            o.caps.cont as int,
        )
        &&& self.cont_far.data@ == History::cont_pulled(
            History::cont_pulled(
                o.cont_far.data@,
                stm,
                conts.1,
                pt,
                to,
                bonus,
                o.caps.cont as int,
            ),
            stm,
            conts.2,
            pt,
            to,
            bonus,
            o.caps.cont as int,
        )
        &&& self.capt == o.capt
        &&& self.pawn_correction == o.pawn_correction
        &&& self.minor_correction == o.minor_correction
        &&& self.major_correction == o.major_correction
        &&& self.caps == o.caps
    }

    /// The three correction tables have taken in an observation since `o`, and nothing else has
    /// changed.
    pub open spec fn corrected(
        self,
        o: History,
        stm: Color,
        pawn_hash: u64,
        minor_hash: u64,
        major_hash: u64,
        diff: int,
        depth: int,
    ) -> bool {
        &&& self.pawn_correction.data@ == o.pawn_correction.data@.update(
            CorrectionHistory::place(stm, pawn_hash),
            blended(
                o.pawn_correction.data@[CorrectionHistory::place(stm, pawn_hash)] as int,
                diff,
                depth,
            ) as i32,
        )
        &&& self.minor_correction.data@ == o.minor_correction.data@.update(
            CorrectionHistory::place(stm, minor_hash),
            blended(
                o.minor_correction.data@[CorrectionHistory::place(stm, minor_hash)] as int,
                diff,
                depth,
            ) as i32,
        )
        &&& self.major_correction.data@ == o.major_correction.data@.update(
            CorrectionHistory::place(stm, major_hash),
            blended(
                o.major_correction.data@[CorrectionHistory::place(stm, major_hash)] as int,
                diff,
                depth,
            ) as i32,
        )
        &&& self.table == o.table
        &&& self.butterfly == o.butterfly
        &&& self.cont_near == o.cont_near
        &&& self.cont_far == o.cont_far
        &&& self.capt == o.capt
        &&& self.caps == o.caps
    }

    /// The entry of a capture has moved by `bonus` since `o`, and nothing else.
    pub open spec fn capture_taught(
        self,
        o: History,
        stm: Color,
        attacker: PieceType,
        to: Square,
        victim: PieceType,
        bonus: int,
    ) -> bool {
        &&& self.capt.data@ == o.capt.data@.update(
            CaptureHistory::place(stm, attacker, to, victim),
            pulled(
                o.capt.data@[CaptureHistory::place(stm, attacker, to, victim)] as int,
                bonus,
                o.caps.capt as int,
            ) as i16,
        )
        &&& self.table == o.table
        &&& self.butterfly == o.butterfly
        &&& self.cont_near == o.cont_near
        &&& self.cont_far == o.cont_far
        &&& self.pawn_correction == o.pawn_correction
        &&& self.minor_correction == o.minor_correction
        &&& self.major_correction == o.major_correction
        &&& self.caps == o.caps
    }

    /// Moves the continuation entries of a reply by `bonus`.
    pub fn update_conthist(
        &mut self,
        stm: Color,
        pt: PieceType,
        to: Square,
        cont1: ContContext,
        cont2: ContContext,
        cont4: ContContext,
        bonus: i32,
    )
        requires
            old(self).wf(),
            pt != PieceType::Empty,
            to.ok(),
            cont1.to.ok(),
            cont2.to.ok(),
            cont4.to.ok(),
            -65535 <= bonus <= 65535,
        ensures
            final(self).wf(),
            final(self).cont_taught(*old(self), stm, pt, to, (cont1, cont2, cont4), bonus as int),
    {
        let cap: i32 = self.caps.cont;
        History::cont_update(&mut self.cont_near, stm, cont1, pt, to, bonus, cap);
        History::cont_update(&mut self.cont_far, stm, cont2, pt, to, bonus, cap);
        History::cont_update(&mut self.cont_far, stm, cont4, pt, to, bonus, cap);
    }

    /// Moves the main, butterfly and continuation entries of a quiet move by `bonus`.
    pub fn update(
        &mut self,
        stm: Color,
        pt: PieceType,
        from: Square,
        to: Square,
        threats: Bitboard,
        cont1: ContContext,
        cont2: ContContext,
        cont4: ContContext,
        bonus: i32,
    )
        requires
            old(self).wf(),
            pt != PieceType::Empty,
            from.ok(),
            to.ok(),
            cont1.to.ok(),
            cont2.to.ok(),
            cont4.to.ok(),
            -65535 <= bonus <= 65535,
        ensures
            final(self).wf(),
            final(self).quiet_taught(*old(self), stm, pt, from, to, threats, (cont1, cont2, cont4), bonus as int),
    {
        let m: usize = History::main_idx(stm, pt, to);
        let f: usize = History::fly_idx(stm, from, to, threats);
        let new_main: i16 = update_entry(self.table[m], bonus, self.caps.quiet);
        let new_fly: i16 = update_entry(self.butterfly[f], bonus, self.caps.butterfly);
        self.table[m] = new_main;
        self.butterfly[f] = new_fly;
        self.update_conthist(stm, pt, to, cont1, cont2, cont4, bonus);
    }

    /// The correction of the static evaluation: the pawn table's, and the weighted mean of
    /// the other two, whose errors go together.
    pub fn correction(
        &self,
        stm: Color,
        pawn_hash: u64,
        minor_hash: u64,
        major_hash: u64,
        minor_weight: i32,
        major_weight: i32,
    ) -> (r: i32)
        requires
            self.wf(),
            0 <= minor_weight,
            0 <= major_weight,
            0 < minor_weight + major_weight <= i32::MAX,
        ensures
            r == self.pawn_correction.data@[CorrectionHistory::place(stm, pawn_hash)] + quotient(
                self.minor_correction.data@[CorrectionHistory::place(stm, minor_hash)] * minor_weight
                    + self.major_correction.data@[CorrectionHistory::place(stm, major_hash)] * major_weight,
                minor_weight + major_weight,
            ),
            -2 * CORRECTION_LIMIT <= r <= 2 * CORRECTION_LIMIT,
    {
        let pawn: i32 = self.pawn_correction.get(stm, pawn_hash);
        let minor: i32 = self.minor_correction.get(stm, minor_hash);
        let major: i32 = self.major_correction.get(stm, major_hash);
        assert(-8192 * minor_weight <= minor * minor_weight <= 8192 * minor_weight) by (nonlinear_arith)
            requires
                -8192 <= minor <= 8192,
                minor_weight >= 0,
        ;
        assert(-8192 * major_weight <= major * major_weight <= 8192 * major_weight) by (nonlinear_arith)
            requires
                -8192 <= major <= 8192,
                major_weight >= 0,
        ;
        let num: i64 = minor as i64 * minor_weight as i64 + major as i64 * major_weight as i64;
        let den: i64 = (minor_weight + major_weight) as i64;
        let refine: i64 = num / den;
        proof {
            lemma_mean_bound(num as int, den as int, 8192);
        }
        pawn + refine as i32
    }

    /// Adds an observation to all three correction tables.
    pub fn update_correction(
        &mut self,
        stm: Color,
        pawn_hash: u64,
        minor_hash: u64,
        major_hash: u64,
        diff: i32,
        depth: i32,
    )
        requires
            old(self).wf(),
        ensures
            final(self).wf(),
            final(self).corrected(*old(self), stm, pawn_hash, minor_hash, major_hash, diff as int, depth as int),
    {
        self.pawn_correction.update(stm, pawn_hash, diff, depth);
        self.minor_correction.update(stm, minor_hash, diff, depth);
        self.major_correction.update(stm, major_hash, diff, depth);
    }

    /// What the capture table says of a capture.
    pub fn score_capture(&self, stm: Color, attacker: PieceType, to: Square, victim: PieceType) -> (r: i32)
        requires
            self.wf(),
            CaptureHistory::fits(attacker, to, victim),
        ensures
            r == self.capt.data@[CaptureHistory::place(stm, attacker, to, victim)],
            -32768 <= r <= 32767,
    {
        self.capt.get(stm, attacker, to, victim) as i32
    }

    /// Moves the entry of a capture by `bonus`.
    pub fn update_capture(&mut self, stm: Color, attacker: PieceType, to: Square, victim: PieceType, bonus: i32)
        requires
            old(self).wf(),
            CaptureHistory::fits(attacker, to, victim),
            -65535 <= bonus <= 65535,
        ensures
            final(self).wf(),
            final(self).capture_taught(*old(self), stm, attacker, to, victim, bonus as int),
    {
        let cap: i32 = self.caps.capt;
        let entry = self.capt.get_mut(stm, attacker, to, victim);
        *entry = update_entry(*entry, bonus, cap);
    }
}

/// A weighted mean is within the bound of what it is taken of.
proof fn lemma_mean_bound(num: int, den: int, bound: int)
    requires
        den > 0,
        bound >= 0,
        -bound * den <= num <= bound * den,
    ensures
        -bound <= quotient(num, den) <= bound,
{
    if num >= 0 {
        assert(num / den <= bound) by (nonlinear_arith)
            requires
                den > 0,
                0 <= num <= bound * den,
        ;
        lemma_quotient(num, den);
    } else {
        assert(-num <= bound * den) by (nonlinear_arith)
            requires
                (-bound) * den <= num,
        ;
        assert((-num) / den <= bound) by (nonlinear_arith)
            requires
                den > 0,
                num < 0,
                -num <= bound * den,
        ;
        lemma_quotient(num, den);
    }
}

/// An entry that is pulled towards its bound never passes it.
pub proof fn law_entries_stay_within_their_cap(entry: int, bonus: int, cap: int)
    requires
        cap > 0,
    ensures
        -cap <= pulled(entry, bonus, cap) <= cap,
{
}

/// A bonus of zero changes nothing within the bound.
pub proof fn law_no_bonus_no_change(entry: int, cap: int)
    requires
        cap > 0,
        -cap <= entry <= cap,
    ensures
        pulled(entry, 0, cap) == entry,
{
    assert(entry * 0 == 0);
}

impl History {
    /// The same tables under the bounds that parameters ask for.
    pub open spec fn under(self, sp: SearchParams) -> History {
        History { caps: HistoryCaps::of(sp), ..self }
    }

    /// One lesson leads from `o` to here: a quiet move, a reply, a capture or an evaluation.
    pub open spec fn learns(self, o: History) -> bool {
        ||| exists|
            stm: Color,
            pt: PieceType,
            from: Square,
            to: Square,
            threats: Bitboard,
            conts: (ContContext, ContContext, ContContext),
            bonus: int,
        | #[trigger]
            self.quiet_taught(o, stm, pt, from, to, threats, conts, bonus)
        ||| exists|stm: Color, pt: PieceType, to: Square, conts: (ContContext, ContContext, ContContext), bonus: int|
            #[trigger]
            self.cont_taught(o, stm, pt, to, conts, bonus)
        ||| exists|stm: Color, attacker: PieceType, to: Square, victim: PieceType, bonus: int| #[trigger]
            self.capture_taught(o, stm, attacker, to, victim, bonus)
        ||| exists|stm: Color, pawn: u64, minor: u64, major: u64, diff: int, depth: int| #[trigger]
            self.corrected(o, stm, pawn, minor, major, diff, depth)
    }

    /// Lessons, one after the other, lead from `o` to here. Nothing else has touched a table.
    #[verifier::opaque]
    pub open spec fn grown(self, o: History) -> bool {
        exists|course: Seq<History>| #[trigger] schooled(course, o, self)
    }
}

/// Each history of `course` is a lesson on from the one before it, from `a` to `b`.
pub open spec fn schooled(course: Seq<History>, a: History, b: History) -> bool {
    &&& course.len() > 0
    &&& course[0] == a
    &&& course.last() == b
    &&& forall|i: int| 1 <= i < course.len() ==> (#[trigger] course[i]).learns(course[i - 1])
}

/// What has learned nothing is as it was.
pub broadcast proof fn lemma_grown_same(a: History, b: History)
    requires
        a == b,
    ensures
        #[trigger] b.grown(a),
{
    reveal(History::grown);
    assert(schooled(seq![a], a, b));
}

/// Lessons add up.
pub broadcast proof fn lemma_grown_further(a: History, b: History, c: History)
    requires
        #[trigger] b.grown(a),
        #[trigger] c.grown(b),
    ensures
        c.grown(a),
{
    reveal(History::grown);
    let x = choose|x: Seq<History>| #[trigger] schooled(x, a, b);
    let y = choose|y: Seq<History>| #[trigger] schooled(y, b, c);
    let z = x + y.skip(1);
    assert forall|i: int| 1 <= i < z.len() implies (#[trigger] z[i]).learns(z[i - 1]) by {
        if i < x.len() {
            assert(z[i] == x[i] && z[i - 1] == x[i - 1]);
        } else {
            let j = i - x.len() + 1;
            assert(z[i] == y[j]);
            if i == x.len() {
                assert(z[i - 1] == x.last() && y[0] == b);
            } else {
                assert(z[i - 1] == y[j - 1]);
            }
        }
    }
    assert(z.last() == c) by {
        if y.len() == 1 {
            assert(z =~= x);
        } else {
            assert(z.last() == y.last());
        }
    }
    assert(schooled(z, a, c));
}

/// A lesson is growth.
pub proof fn lemma_grown_by_a_lesson(a: History, b: History)
    requires
        b.learns(a),
    ensures
        b.grown(a),
{
    reveal(History::grown);
    assert(schooled(seq![a, b], a, b));
}

impl History {
    /// What the quiet tables say of a move.
    pub open spec fn quiet_score(
        self,
        stm: Color,
        pt: PieceType,
        from: Square,
        to: Square,
        threats: Bitboard,
        conts: (ContContext, ContContext, ContContext),
    ) -> int {
        self.table@[History::main_place(stm, pt, to)] + self.butterfly@[History::fly_place(stm, from, to, threats)]
            + History::cont_worth(self.cont_near, stm, conts.0, pt, to) + History::cont_worth(
            self.cont_far,
            stm,
            conts.1,
            pt,
            to,
        ) + History::cont_worth(self.cont_far, stm, conts.2, pt, to)
    }

    /// Every entry lies within the bound of its table.
    pub open spec fn capped(self) -> bool {
        &&& within(self.table@, self.caps.quiet as int)
        &&& within(self.butterfly@, self.caps.butterfly as int)
        &&& within(self.cont_near.data@, self.caps.cont as int)
        &&& within(self.cont_far.data@, self.caps.cont as int)
        &&& within(self.capt.data@, self.caps.capt as int)
    }
}

/// Every entry lies within `cap`.
pub open spec fn within(t: Seq<i16>, cap: int) -> bool {
    forall|i: int| 0 <= i < t.len() ==> -cap <= #[trigger] t[i] <= cap
}

/// A bonus within the bound moves an entry its own way.
proof fn lemma_pulled_by_sign(e: int, bonus: int, cap: int)
    requires
        0 < cap <= 32767,
        -cap <= e <= cap,
        -cap <= bonus <= cap,
    ensures
        -cap <= pulled(e, bonus, cap) <= cap,
        bonus >= 0 ==> pulled(e, bonus, cap) >= e,
        bonus <= 0 ==> pulled(e, bonus, cap) <= e,
{
    let a = vstd::math::abs(bonus) as int;
    let x = e * a;
    assert(-(cap * a) <= x <= cap * a) by (nonlinear_arith)
        requires
            x == e * a,
            -cap <= e <= cap,
            a >= 0,
    ;
    if x >= 0 {
        assert(x / cap <= a) by (nonlinear_arith)
            requires
                x <= cap * a,
                cap > 0,
        ;
    } else {
        assert((-x) / cap <= a) by (nonlinear_arith)
            requires
                -x <= cap * a,
                cap > 0,
        ;
    }
}

proof fn lemma_within_update(t: Seq<i16>, i: int, bonus: int, cap: int)
    requires
        0 < cap <= 32767,
        within(t, cap),
        -cap <= bonus <= cap,
        0 <= i < t.len(),
    ensures
        within(t.update(i, pulled(t[i] as int, bonus, cap) as i16), cap),
        forall|j: int|
            0 <= j < t.len() && bonus >= 0 ==> (#[trigger] t.update(i, pulled(t[i] as int, bonus, cap) as i16)[j]) >= t[j],
        forall|j: int|
            0 <= j < t.len() && bonus <= 0 ==> (#[trigger] t.update(i, pulled(t[i] as int, bonus, cap) as i16)[j]) <= t[j],
{
    lemma_pulled_by_sign(t[i] as int, bonus, cap);
}

proof fn lemma_within_cont(t: Seq<i16>, stm: Color, ctx: ContContext, pt: PieceType, to: Square, bonus: int, cap: int)
    requires
        0 < cap <= 32767,
        within(t, cap),
        -cap <= bonus <= cap,
        t.len() == ContinuationHistory::size(),
        pt != PieceType::Empty,
        to.ok(),
        ctx.to.ok(),
    ensures
        within(History::cont_pulled(t, stm, ctx, pt, to, bonus, cap), cap),
        History::cont_pulled(t, stm, ctx, pt, to, bonus, cap).len() == t.len(),
        forall|j: int|
            0 <= j < t.len() && bonus >= 0 ==> (#[trigger] History::cont_pulled(t, stm, ctx, pt, to, bonus, cap)[j]) >= t[j],
        forall|j: int|
            0 <= j < t.len() && bonus <= 0 ==> (#[trigger] History::cont_pulled(t, stm, ctx, pt, to, bonus, cap)[j]) <= t[j],
{
    if ctx.pt != PieceType::Empty {
        let i = ContinuationHistory::place(stm, ctx.pt, ctx.to, pt, to);
        assert(0 <= i < ContinuationHistory::size());
        lemma_within_update(t, i, bonus, cap);
    }
}

/// Teaching a quiet move moves its score with the sign of the bonus, and every entry stays
/// within the bound of its table.
pub proof fn law_a_quiet_score_moves_with_its_bonus(
    h: History,
    g: History,
    stm: Color,
    pt: PieceType,
    from: Square,
    to: Square,
    threats: Bitboard,
    conts: (ContContext, ContContext, ContContext),
    bonus: int,
)
    requires
        h.wf(),
        h.capped(),
        g.quiet_taught(h, stm, pt, from, to, threats, conts, bonus),
        pt != PieceType::Empty,
        from.ok() && to.ok() && conts.0.to.ok() && conts.1.to.ok() && conts.2.to.ok(),
        -h.caps.quiet <= bonus <= h.caps.quiet,
        -h.caps.butterfly <= bonus <= h.caps.butterfly,
        -h.caps.cont <= bonus <= h.caps.cont,
    ensures
        bonus >= 0 ==> g.quiet_score(stm, pt, from, to, threats, conts) >= h.quiet_score(stm, pt, from, to, threats, conts),
        bonus <= 0 ==> g.quiet_score(stm, pt, from, to, threats, conts) <= h.quiet_score(stm, pt, from, to, threats, conts),
        g.capped(),
{
    let m = History::main_place(stm, pt, to);
    let f = History::fly_place(stm, from, to, threats);
    assert(0 <= m < 768 && 0 <= f < 32768);
    lemma_within_update(h.table@, m, bonus, h.caps.quiet as int);
    lemma_within_update(h.butterfly@, f, bonus, h.caps.butterfly as int);
    let cap = h.caps.cont as int;
    lemma_within_cont(h.cont_near.data@, stm, conts.0, pt, to, bonus, cap);
    lemma_within_cont(h.cont_far.data@, stm, conts.1, pt, to, bonus, cap);
    let mid = History::cont_pulled(h.cont_far.data@, stm, conts.1, pt, to, bonus, cap);
    lemma_within_cont(mid, stm, conts.2, pt, to, bonus, cap);
    if conts.0.pt != PieceType::Empty {
        let i = ContinuationHistory::place(stm, conts.0.pt, conts.0.to, pt, to);
        assert(0 <= i < ContinuationHistory::size());
    }
    if conts.1.pt != PieceType::Empty {
        let i = ContinuationHistory::place(stm, conts.1.pt, conts.1.to, pt, to);
        assert(0 <= i < ContinuationHistory::size());
        assert(bonus >= 0 ==> mid[i] >= h.cont_far.data@[i]);
        assert(bonus <= 0 ==> mid[i] <= h.cont_far.data@[i]);
    }
    if conts.2.pt != PieceType::Empty {
        let i = ContinuationHistory::place(stm, conts.2.pt, conts.2.to, pt, to);
        assert(0 <= i < ContinuationHistory::size());
        assert(bonus >= 0 ==> mid[i] >= h.cont_far.data@[i]);
        assert(bonus <= 0 ==> mid[i] <= h.cont_far.data@[i]);
    }
}

/// What one side learns of quiet moves the other side does not see.
pub proof fn law_sides_learn_apart(
    h: History,
    g: History,
    stm: Color,
    pt: PieceType,
    from: Square,
    to: Square,
    threats: Bitboard,
    conts: (ContContext, ContContext, ContContext),
    bonus: int,
    pt2: PieceType,
    from2: Square,
    to2: Square,
    threats2: Bitboard,
    conts2: (ContContext, ContContext, ContContext),
)
    requires
        h.wf(),
        g.quiet_taught(h, stm, pt, from, to, threats, conts, bonus),
        pt != PieceType::Empty && pt2 != PieceType::Empty,
        from.ok() && to.ok() && conts.0.to.ok() && conts.1.to.ok() && conts.2.to.ok(),
        from2.ok() && to2.ok() && conts2.0.to.ok() && conts2.1.to.ok() && conts2.2.to.ok(),
    ensures
        g.quiet_score(stm.other(), pt2, from2, to2, threats2, conts2) == h.quiet_score(
            stm.other(),
            pt2,
            from2,
            to2,
            threats2,
            conts2,
        ),
        g.capt == h.capt,
        g.pawn_correction == h.pawn_correction,
        g.minor_correction == h.minor_correction,
        g.major_correction == h.major_correction,
{
    let c = stm.other();
    assert(stm.index() + c.index() == 1);
    assert(0 <= History::main_place(stm, pt, to) < 768);
    assert(0 <= History::main_place(c, pt2, to2) < 768);
    assert(History::main_place(stm, pt, to) != History::main_place(c, pt2, to2));
    assert(0 <= History::fly_place(c, from2, to2, threats2) < 32768);
    assert(History::fly_place(stm, from, to, threats) != History::fly_place(c, from2, to2, threats2));
    lemma_apart(stm, conts.0, pt, to, conts2.0, pt2, to2);
    lemma_apart(stm, conts.1, pt, to, conts2.1, pt2, to2);
    lemma_apart(stm, conts.1, pt, to, conts2.2, pt2, to2);
    lemma_apart(stm, conts.2, pt, to, conts2.1, pt2, to2);
    lemma_apart(stm, conts.2, pt, to, conts2.2, pt2, to2);
}

proof fn lemma_apart(stm: Color, x: ContContext, pt: PieceType, to: Square, y: ContContext, pt2: PieceType, to2: Square)
    requires
        pt != PieceType::Empty && pt2 != PieceType::Empty,
        to.ok() && to2.ok() && x.to.ok() && y.to.ok(),
    ensures
        x.pt != PieceType::Empty && y.pt != PieceType::Empty ==> {
            let i = ContinuationHistory::place(stm, x.pt, x.to, pt, to);
            let j = ContinuationHistory::place(stm.other(), y.pt, y.to, pt2, to2);
            i != j && 0 <= i < ContinuationHistory::size() && 0 <= j < ContinuationHistory::size()
        },
{
}

/// A bonus lifts an entry that is not at its bound yet, and the less the higher it stands; a
/// malus lowers it in the same way; an entry starts with the bonus itself; and one that stands
/// at its bound loses twice the malus.
pub proof fn law_a_bonus_lifts_and_a_malus_lowers(a: int, b: int, bonus: int, cap: int)
    requires
        cap > 0,
        -cap <= a <= b <= cap,
        0 < bonus <= cap,
    ensures
        a < cap ==> pulled(a, bonus, cap) > a,
        pulled(cap, bonus, cap) == cap,
        pulled(cap, -bonus, cap) == cap - 2 * bonus,
        pulled(0, bonus, cap) == bonus,
        pulled(-a, -bonus, cap) == -pulled(a, bonus, cap),
        pulled(b, bonus, cap) - b <= pulled(a, bonus, cap) - a,
{
    assert(a < cap && a >= 0 ==> a * bonus <= (cap - 1) * bonus) by (nonlinear_arith)
        requires
            bonus > 0,
    ;
    assert(a * bonus <= b * bonus && (-a) * bonus == -(a * bonus) && 0 * bonus == 0) by (nonlinear_arith)
        requires
            bonus > 0,
            a <= b,
    ;
    assert((a >= 0 ==> a * bonus >= 0) && (a <= 0 ==> a * bonus <= 0) && (b >= 0 ==> b * bonus >= 0) && (b <= 0 ==> b * bonus
        <= 0)) by (nonlinear_arith)
        requires
            bonus > 0,
    ;
    assert((cap - 1) * bonus < cap * bonus) by (nonlinear_arith)
        requires
            bonus > 0,
    ;
    lemma_share(a * bonus, bonus, cap, a);
    lemma_share(b * bonus, bonus, cap, b);
    lemma_share(cap * bonus, bonus, cap, cap);
    if a * bonus >= 0 && b * bonus >= 0 {
        vstd::arithmetic::div_mod::lemma_div_is_ordered(a * bonus, b * bonus, cap);
    } else if a * bonus < 0 && b * bonus < 0 {
        vstd::arithmetic::div_mod::lemma_div_is_ordered(-(b * bonus), -(a * bonus), cap);
    } else {
        lemma_quotient(a * bonus, cap);
        lemma_quotient(b * bonus, cap);
    }
}

/// The share of itself that an entry gives up is at most the bonus, less than it short of the
/// bound, and all of it at the bound.
proof fn lemma_share(x: int, bonus: int, cap: int, e: int)
    requires
        cap > 0,
        0 < bonus <= cap,
        -cap <= e <= cap,
        x == e * bonus,
    ensures
        -bonus <= quotient(x, cap) <= bonus,
        e < cap ==> quotient(x, cap) < bonus,
        e == cap ==> quotient(x, cap) == bonus,
        e <= 0 ==> quotient(x, cap) <= 0,
        e >= 0 ==> quotient(x, cap) >= 0,
{
    assert(e >= 0 ==> 0 <= x <= cap * bonus) by (nonlinear_arith)
        requires
            x == e * bonus,
            e <= cap,
            bonus > 0,
    ;
    assert(e <= 0 ==> 0 <= -x <= cap * bonus) by (nonlinear_arith)
        requires
            x == e * bonus,
            -cap <= e,
            bonus > 0,
    ;
    assert(e < cap ==> x < cap * bonus) by (nonlinear_arith)
        requires
            x == e * bonus,
            bonus > 0,
    ;
    if e >= 0 {
        assert(x / cap <= bonus && 0 <= x / cap && (x < cap * bonus ==> x / cap < bonus) && (x == cap * bonus ==> x / cap == bonus))
            by (nonlinear_arith)
            requires
                cap > 0,
                0 <= x <= cap * bonus,
        ;
    } else {
        assert((-x) / cap <= bonus && 0 <= (-x) / cap) by (nonlinear_arith)
            requires
                cap > 0,
                0 <= -x <= cap * bonus,
        ;
    }
}

/// An average moves towards what is observed and never past it; the deeper the search, the more
/// the observation counts, up to an eighth of the way; and at depth zero it does not count.
pub proof fn law_an_average_moves_towards_what_is_observed(entry: int, raw: int, d: int)
    requires
        -CORRECTION_LIMIT <= entry <= CORRECTION_LIMIT,
        -32 <= raw <= 32,
        d >= 0,
    ensures
        entry <= raw * CORRECTION_SCALE ==> entry <= blended(entry, raw, d) <= raw * CORRECTION_SCALE || entry < 0,
        entry >= raw * CORRECTION_SCALE ==> raw * CORRECTION_SCALE <= blended(entry, raw, d) <= entry || entry > 0,
        entry == raw * CORRECTION_SCALE ==> blended(entry, raw, d) == entry,
        blended(entry, raw, 0) == entry,
        d >= 11 ==> blended(0, raw, d) == raw * CORRECTION_SCALE / 8,
        d >= 11 ==> blended(entry, raw, d) == blended(entry, raw, 11),
        blended(-entry, -raw, d) == -blended(entry, raw, d),
{
    let square = (1 + d) * (1 + d) / 4;
    assert(square >= 0 && (d >= 11 ==> square >= 36)) by (nonlinear_arith)
        requires
            d >= 0,
            square == (1 + d) * (1 + d) / 4,
    ;
    let w = if square < 32 {
        square
    } else {
        32
    };
    let o = raw * CORRECTION_SCALE;
    assert(o * w - entry * w == (o - entry) * w) by (nonlinear_arith);
    assert(entry * (256 - w) == entry * 256 - entry * w) by (nonlinear_arith);
    assert(entry * (256 - 0) == entry * 256);
    assert(raw * CORRECTION_SCALE * 0 == 0);
    assert((-entry) * (256 - w) + (-raw) * CORRECTION_SCALE * w == -(entry * (256 - w) + raw * CORRECTION_SCALE * w))
        by (nonlinear_arith);
    assert((entry <= o ==> 0 <= (o - entry) * w <= (o - entry) * 32) && (entry >= o ==> 0 >= (o - entry) * w >= (o - entry) * 32)
        && (entry == o ==> (o - entry) * w == 0)) by (nonlinear_arith)
        requires
            0 <= w <= 32,
    ;
    assert((1 + 0int) * (1 + 0) / 4 == 0) by (nonlinear_arith);
    assert((1 + 11int) * (1 + 11) / 4 == 36) by (nonlinear_arith);
    assert(w == 32 ==> o * w == o * 32);
    assert(0 * (256 - w) == 0) by (nonlinear_arith);
}

/// No two different quiet moves of a side share an entry of the main or the butterfly table, and
/// a move from or to an attacked square has another one than the same move in peace.
pub proof fn law_moves_have_entries_of_their_own(
    c: Color,
    pt: PieceType,
    from: Square,
    to: Square,
    threats: Bitboard,
    c2: Color,
    pt2: PieceType,
    from2: Square,
    to2: Square,
    threats2: Bitboard,
)
    requires
        pt != PieceType::Empty && pt2 != PieceType::Empty,
        from.ok() && to.ok() && from2.ok() && to2.ok(),
    ensures
        History::main_place(c, pt, to) == History::main_place(c2, pt2, to2) ==> c == c2 && pt == pt2 && to == to2,
        History::fly_place(c, from, to, threats) == History::fly_place(c2, from2, to2, threats2) ==> {
            &&& c == c2 && from == from2 && to == to2
            &&& threats.has(from.at()) == threats2.has(from.at())
            &&& threats.has(to.at()) == threats2.has(to.at())
        },
        threats.has(from.at()) == threats2.has(from.at()) && threats.has(to.at()) == threats2.has(to.at()) ==> History::fly_place(
            c,
            from,
            to,
            threats,
        ) == History::fly_place(c, from, to, threats2),
{
    lemma_digits(c.index() * 6 + pt.index(), c2.index() * 6 + pt2.index(), to.at(), to2.at(), 64);
    lemma_digits(c.index(), c2.index(), pt.index(), pt2.index(), 6);
    let d = c.index() * 2 + flag(threats.has(from.at()));
    let e = d * 2 + flag(threats.has(to.at()));
    let d2 = c2.index() * 2 + flag(threats2.has(from2.at()));
    let e2 = d2 * 2 + flag(threats2.has(to2.at()));
    lemma_digits(e, e2, butterfly_place(from, to), butterfly_place(from2, to2), 4096);
    lemma_digits(from.at(), from2.at(), to.at(), to2.at(), 64);
    lemma_digits(d, d2, flag(threats.has(to.at())), flag(threats2.has(to2.at())), 2);
    lemma_digits(c.index(), c2.index(), flag(threats.has(from.at())), flag(threats2.has(from2.at())), 2);
}

/// No two different replies share an entry of a continuation table, and no two different captures
/// one of the capture table.
pub proof fn law_replies_and_captures_have_entries_of_their_own(
    c: Color,
    prev: PieceType,
    prev_to: Square,
    pt: PieceType,
    to: Square,
    c2: Color,
    prev2: PieceType,
    prev_to2: Square,
    pt2: PieceType,
    to2: Square,
)
    requires
        ContinuationHistory::fits(prev, prev_to, pt, to),
        ContinuationHistory::fits(prev2, prev_to2, pt2, to2),
    ensures
        ContinuationHistory::place(c, prev, prev_to, pt, to) == ContinuationHistory::place(c2, prev2, prev_to2, pt2, to2) ==> c
            == c2 && prev == prev2 && prev_to == prev_to2 && pt == pt2 && to == to2,
        CaptureHistory::place(c, pt, to, prev) == CaptureHistory::place(c2, pt2, to2, prev2) ==> c == c2 && pt == pt2 && to == to2
            && prev == prev2,
{
    let a = c.index() * 6 + prev.index();
    let b = a * 64 + prev_to.at();
    let d = b * 6 + pt.index();
    let a2 = c2.index() * 6 + prev2.index();
    let b2 = a2 * 64 + prev_to2.at();
    let d2 = b2 * 6 + pt2.index();
    lemma_digits(d, d2, to.at(), to2.at(), 64);
    lemma_digits(b, b2, pt.index(), pt2.index(), 6);
    lemma_digits(a, a2, prev_to.at(), prev_to2.at(), 64);
    lemma_digits(c.index(), c2.index(), prev.index(), prev2.index(), 6);
    let e = c.index() * 6 + pt.index();
    let e2 = c2.index() * 6 + pt2.index();
    lemma_digits(e * 64 + to.at(), e2 * 64 + to2.at(), prev.index(), prev2.index(), 6);
    lemma_digits(e, e2, to.at(), to2.at(), 64);
    lemma_digits(c.index(), c2.index(), pt.index(), pt2.index(), 6);
}

/// A number falls into its last digit and the rest in one way.
proof fn lemma_digits(a: int, b: int, x: int, y: int, k: int)
    requires
        0 <= x < k,
        0 <= y < k,
    ensures
        a * k + x == b * k + y ==> a == b && x == y,
{
    assert(a < b ==> a * k + k <= b * k) by (nonlinear_arith)
        requires
            k > 0,
    ;
    assert(b < a ==> b * k + k <= a * k) by (nonlinear_arith)
        requires
            k > 0,
    ;
}

/// The sides have corrections apart, and keys that differ in their low bits too.
pub proof fn law_structures_have_entries_of_their_own(c: Color, x: u64, c2: Color, y: u64)
    ensures
        CorrectionHistory::place(c, x) == CorrectionHistory::place(c2, y) <==> c == c2 && x % 16384 == y % 16384,
        0 <= CorrectionHistory::place(c, x) < CorrectionHistory::size(),
{
}

/// A quiet move is judged by all of its entries alike: a point in any one of them is a point of
/// its score.
pub proof fn law_every_table_counts_alike(
    h: History,
    g: History,
    stm: Color,
    pt: PieceType,
    from: Square,
    to: Square,
    threats: Bitboard,
    conts: (ContContext, ContContext, ContContext),
    d: int,
)
    requires
        h.table@[History::main_place(stm, pt, to)] + d == g.table@[History::main_place(stm, pt, to)],
        h.butterfly == g.butterfly && h.cont_near == g.cont_near && h.cont_far == g.cont_far,
    ensures
        g.quiet_score(stm, pt, from, to, threats, conts) == h.quiet_score(stm, pt, from, to, threats, conts) + d,
{
}

/// Teaching a quiet move moves its entry in the main table, in the butterfly table and, for each
/// move before it that is known, in a continuation table, each towards its own bound; and no other
/// entry of the main and the butterfly table.
pub proof fn law_every_table_learns_of_a_quiet_move(
    h: History,
    g: History,
    stm: Color,
    pt: PieceType,
    from: Square,
    to: Square,
    threats: Bitboard,
    conts: (ContContext, ContContext, ContContext),
    bonus: int,
    i: int,
)
    requires
        h.wf(),
        g.quiet_taught(h, stm, pt, from, to, threats, conts, bonus),
        pt != PieceType::Empty,
        from.ok() && to.ok() && conts.0.to.ok() && conts.1.to.ok() && conts.2.to.ok(),
    ensures
        g.table@[History::main_place(stm, pt, to)] == pulled(
            h.table@[History::main_place(stm, pt, to)] as int,
            bonus,
            h.caps.quiet as int,
        ),
        g.butterfly@[History::fly_place(stm, from, to, threats)] == pulled(
            h.butterfly@[History::fly_place(stm, from, to, threats)] as int,
            bonus,
            h.caps.butterfly as int,
        ),
        conts.0.pt != PieceType::Empty ==> History::cont_worth(g.cont_near, stm, conts.0, pt, to) == pulled(
            History::cont_worth(h.cont_near, stm, conts.0, pt, to),
            bonus,
            h.caps.cont as int,
        ),
        conts.1.pt != PieceType::Empty && conts.2.pt == PieceType::Empty ==> History::cont_worth(g.cont_far, stm, conts.1, pt, to)
            == pulled(History::cont_worth(h.cont_far, stm, conts.1, pt, to), bonus, h.caps.cont as int),
        conts.1.pt == PieceType::Empty && conts.2.pt != PieceType::Empty ==> History::cont_worth(g.cont_far, stm, conts.2, pt, to)
            == pulled(History::cont_worth(h.cont_far, stm, conts.2, pt, to), bonus, h.caps.cont as int),
        0 <= i < 768 && i != History::main_place(stm, pt, to) ==> g.table@[i] == h.table@[i],
        0 <= i < 32768 && i != History::fly_place(stm, from, to, threats) ==> g.butterfly@[i] == h.butterfly@[i],
        g.capt == h.capt,
{
    let m = History::main_place(stm, pt, to);
    let f = History::fly_place(stm, from, to, threats);
    assert(0 <= m < 768 && 0 <= f < 32768);
    if conts.0.pt != PieceType::Empty {
        assert(0 <= ContinuationHistory::place(stm, conts.0.pt, conts.0.to, pt, to) < ContinuationHistory::size());
    }
    if conts.1.pt != PieceType::Empty {
        assert(0 <= ContinuationHistory::place(stm, conts.1.pt, conts.1.to, pt, to) < ContinuationHistory::size());
    }
    if conts.2.pt != PieceType::Empty {
        assert(0 <= ContinuationHistory::place(stm, conts.2.pt, conts.2.to, pt, to) < ContinuationHistory::size());
    }
}

/// Teaching a capture moves its own entry and nothing else.
pub proof fn law_a_capture_moves_its_own_entry(
    h: History,
    g: History,
    stm: Color,
    attacker: PieceType,
    to: Square,
    victim: PieceType,
    bonus: int,
    i: int,
)
    requires
        h.wf(),
        CaptureHistory::fits(attacker, to, victim),
        g.capture_taught(h, stm, attacker, to, victim, bonus),
    ensures
        g.capt.data@[CaptureHistory::place(stm, attacker, to, victim)] == pulled(
            h.capt.data@[CaptureHistory::place(stm, attacker, to, victim)] as int,
            bonus,
            h.caps.capt as int,
        ),
        0 <= i < CaptureHistory::size() && i != CaptureHistory::place(stm, attacker, to, victim) ==> g.capt.data@[i]
            == h.capt.data@[i],
        g.table == h.table && g.butterfly == h.butterfly && g.cont_near == h.cont_near && g.cont_far == h.cont_far,
{
    assert(0 <= CaptureHistory::place(stm, attacker, to, victim) < CaptureHistory::size());
}

/// Each bound is the one that the parameter of its name asks for.
pub proof fn law_each_table_has_its_own_bound(sp: SearchParams)
    ensures
        HistoryCaps::of(sp).quiet == sp.quiet_hist_cap(),
        HistoryCaps::of(sp).butterfly == sp.butterfly_hist_cap(),
        HistoryCaps::of(sp).cont == sp.cont_hist_cap(),
        HistoryCaps::of(sp).capt == sp.capt_hist_cap(),
{
}

} // verus!
