//! Combines the buckets that the evaluation terms fill into one score.
//!
//! Evaluation has two stages: terms fill [`Accumulators`], and a combiner collapses them.
//! The linear combiner adds what is tapered already, tapers the bonus pair, and tapers
//! king safety towards the middlegame only.

use vstd::prelude::*;

use crate::chess::defs::TOTAL_PHASE;
use crate::engine::eval_params::KING_DANGER;
use crate::engine::history;
use crate::engine::mobility::{self, taper};

verus! {

/// What the curvature of king danger is counted in.
pub const DANGER_SCALE: i32 = 32768;

/// The buckets of one position, seen from white.
#[derive(Clone, Copy, Debug, PartialEq, Eq, Structural)]
pub struct Accumulators {
    /// Material and piece-square sums, tapered.
    pub mg_eg: i32,
    /// Mobility, tapered.
    pub mobility: i32,
    /// The bonus terms in the middlegame.
    pub bonus_mg: i32,
    /// The bonus terms in the endgame.
    pub bonus_eg: i32,
    /// Shelter less exposure of white's king.
    pub safety_us: i32,
    /// Shelter less exposure of black's king.
    pub safety_them: i32,
    /// Pressure on white's king.
    pub danger_us: i32,
    /// Pressure on black's king.
    pub danger_them: i32,
    /// Lines that reach a king's surroundings through a man.
    pub xray: i32,
}

impl Accumulators {
    /// No bucket is out of proportion.
    pub open spec fn small(self) -> bool {
        &&& -5_000_000 <= self.mg_eg <= 5_000_000
        &&& -300_000 <= self.mobility <= 300_000
        &&& -1_000_000 <= self.bonus_mg <= 1_000_000
        &&& -1_000_000 <= self.bonus_eg <= 1_000_000
        &&& -2000 <= self.safety_us <= 2000
        &&& -2000 <= self.safety_them <= 2000
        &&& 0 <= self.danger_us <= 4000
        &&& 0 <= self.danger_them <= 4000
        &&& -1000 <= self.xray <= 1000
    }

    /// King safety: shelter less danger, white less black, in the middlegame only.
    pub open spec fn safety(self, phase: int, curvature: int) -> int {
        mobility::tapered(
            self.safety_us - self.safety_them - (curved(self.danger_us as int, curvature) - curved(
                self.danger_them as int,
                curvature,
            )) + self.xray,
            0,
            phase,
        )
    }

    /// The bonus terms.
    pub open spec fn bonus(self, phase: int) -> int {
        mobility::tapered(self.bonus_mg as int, self.bonus_eg as int, phase)
    }

    /// The score.
    pub open spec fn total(self, phase: int, curvature: int) -> int {
        self.mg_eg + self.mobility + self.bonus(phase) + self.safety(phase, curvature)
    }
}

/// What the combiner itself is tuned by.
#[derive(Clone, Copy, Debug, PartialEq, Eq, Structural)]
pub struct CombinerParams {
    /// The curvature of king danger.
    pub king_danger: i32,
}

impl CombinerParams {
    /// The shipped weights.
    pub fn from_const() -> (p: CombinerParams)
        ensures
            p.king_danger == KING_DANGER[0],
            0 <= p.king_danger <= 100,
    {
        CombinerParams { king_danger: KING_DANGER[0] }
    }
}

/// Pressure that accelerates: with curvature zero it is the pressure itself.
pub open spec fn curved(pressure: int, curvature: int) -> int {
    pressure + history::quotient(pressure * pressure * curvature, DANGER_SCALE as int)
}

fn king_danger(pressure: i32, curvature: i32) -> (r: i32)
    requires
        0 <= pressure <= 4000,
        0 <= curvature <= 100,
    ensures
        r == curved(pressure as int, curvature as int),
        0 <= r <= 100_000,
{
    proof {
        assert(0 <= pressure * pressure <= 4000 * 4000) by (nonlinear_arith)
            requires
                0 <= pressure <= 4000,
        ;
        let sq = pressure * pressure;
        assert(0 <= sq * curvature <= 4000 * 4000 * 100) by (nonlinear_arith)
            requires
                0 <= sq <= 4000 * 4000,
                0 <= curvature <= 100,
        ;
    }
    pressure + pressure * pressure * curvature / DANGER_SCALE
}

/// The king safety block of a set of buckets.
pub fn safety_block(buckets: &Accumulators, phase: i32, params: &CombinerParams) -> (r: i32)
    requires
        buckets.small(),
        0 <= phase <= TOTAL_PHASE,
        0 <= params.king_danger <= 100,
    ensures
        r == buckets.safety(phase as int, params.king_danger as int),
        -300_000 <= r <= 300_000,
{
    let c: i32 = params.king_danger;
    let danger: i32 = king_danger(buckets.danger_us, c) - king_danger(buckets.danger_them, c);
    let diff: i32 = buckets.safety_us - buckets.safety_them - danger + buckets.xray;
    proof {
        mobility::lemma_tapered(diff as int, 0, phase as int, 300_000);
    }
    taper(diff, 0, phase)
}

/// Adds the tapered buckets and tapers the others.
pub struct LinearCombiner;

impl LinearCombiner {
    /// Collapses the buckets into the score.
    pub fn forward(buckets: &Accumulators, phase: i32, params: &CombinerParams) -> (r: i32)
        requires
            buckets.small(),
            0 <= phase <= TOTAL_PHASE,
            0 <= params.king_danger <= 100,
        ensures
            r == buckets.total(phase as int, params.king_danger as int),
            -7_000_000 <= r <= 7_000_000,
    {
        let bonus: i32 = taper(buckets.bonus_mg, buckets.bonus_eg, phase);
        proof {
            mobility::lemma_tapered(buckets.bonus_mg as int, buckets.bonus_eg as int, phase as int, 1_000_000);
        }
        let safety: i32 = safety_block(buckets, phase, params);
        buckets.mg_eg + buckets.mobility + bonus + safety
    }
}

/// With curvature zero, danger is linear in the pressure.
pub proof fn law_no_curvature_is_linear(pressure: int)
    ensures
        curved(pressure, 0) == pressure,
{
    assert(pressure * pressure * 0 == 0);
}

/// A better covered king and less pressure on it raise the score of its side, and by as much as
/// they lower that of the other; with no pieces left king safety counts for nothing.
pub proof fn law_safety_is_for_the_middlegame(a: Accumulators, b: Accumulators, curvature: int)
    requires
        a.xray == b.xray,
        a.danger_us == b.danger_us,
        a.danger_them == b.danger_them,
    ensures
        a.safety(0, curvature) == 0,
        a.safety(24, curvature) - b.safety(24, curvature) == (a.safety_us - b.safety_us) - (a.safety_them - b.safety_them),
{
    let x = a.safety_us - a.safety_them - (curved(a.danger_us as int, curvature) - curved(a.danger_them as int, curvature))
        + a.xray;
    let y = b.safety_us - b.safety_them - (curved(b.danger_us as int, curvature) - curved(b.danger_them as int, curvature))
        + b.xray;
    mobility::law_the_phase_leads_from_middlegame_to_endgame(x, 0, 0);
    mobility::law_the_phase_leads_from_middlegame_to_endgame(y, 0, 0);
}

/// Pressure on white's king costs white, pressure on black's king pays it, and lines through a man
/// at the enemy king pay their side.
pub proof fn law_danger_costs_its_side(a: Accumulators, b: Accumulators)
    requires
        a.safety_us == b.safety_us,
        a.safety_them == b.safety_them,
    ensures
        a.safety(24, 0) - b.safety(24, 0) == (b.danger_us - a.danger_us) + (a.danger_them - b.danger_them) + (a.xray - b.xray),
{
    law_no_curvature_is_linear(a.danger_us as int);
    law_no_curvature_is_linear(a.danger_them as int);
    law_no_curvature_is_linear(b.danger_us as int);
    law_no_curvature_is_linear(b.danger_them as int);
    let x = a.safety_us - a.safety_them - (a.danger_us - a.danger_them) + a.xray;
    let y = b.safety_us - b.safety_them - (b.danger_us - b.danger_them) + b.xray;
    mobility::law_the_phase_leads_from_middlegame_to_endgame(x, 0, 0);
    mobility::law_the_phase_leads_from_middlegame_to_endgame(y, 0, 0);
}

/// A score is the sum of its parts; the bonus pair is the middlegame one with all pieces on the
/// board and the endgame one with none.
pub proof fn law_a_score_is_the_sum_of_its_parts(a: Accumulators, phase: int, curvature: int)
    ensures
        a.total(phase, curvature) - a.mg_eg - a.mobility - a.bonus(phase) == a.safety(phase, curvature),
        a.bonus(24) == a.bonus_mg,
        a.bonus(0) == a.bonus_eg,
        a.total(0, curvature) == a.mg_eg + a.mobility + a.bonus_eg,
{
    mobility::law_the_phase_leads_from_middlegame_to_endgame(a.bonus_mg as int, a.bonus_eg as int, 0);
    mobility::law_the_phase_leads_from_middlegame_to_endgame(
        a.safety_us - a.safety_them - (curved(a.danger_us as int, curvature) - curved(a.danger_them as int, curvature))
            + a.xray,
        0,
        0,
    );
}

} // verus!
