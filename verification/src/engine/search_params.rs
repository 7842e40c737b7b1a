//! Search-specific tunable parameters.
//!
//! Each parameter has a name, a default and a range. A tunable one is advertised as a UCI
//! spin option and settable by name; a frozen one is neither, and its range is the one it
//! would be tuned over.

use vstd::prelude::*;

use crate::text;

verus! {

/// The number of parameters.
pub const PARAM_COUNT: usize = 108;

/// The names, in the order the table is printed.
pub const NAMES: [&'static str; 108] = [
    "asp_depth", "asp_initial", "asp_widen_div", "qs_lazy_margin", "qs_lazy_divisor", "vol_pawn", "vol_knight",
    "vol_bishop", "vol_rook", "vol_queen", "vol_king", "mtg_opening", "mtg_endgame", "tm_iter_scale",
    "tm_single_root", "tm_hard_mult", "tm_hard_clock_cap", "tm_sd_base", "tm_sd_ramp", "tm_sd_cap", "tm_soft_inc",
    "score_drop_depth", "score_swing_scale", "effort_depth", "effort_base", "effort_scale", "effort_floor",
    "bm_stab_base", "bm_stab_scale", "bm_stab_floor", "bm_inst_scale", "bm_inst_decay", "mvvlva_ep",
    "mvvlva_v_pawn", "mvvlva_v_knight", "mvvlva_v_bishop", "mvvlva_v_rook", "mvvlva_v_queen", "mvvlva_v_king",
    "mvvlva_a_pawn", "mvvlva_a_knight", "mvvlva_a_bishop", "mvvlva_a_rook", "mvvlva_a_queen", "mvvlva_a_king",
    "see_value_pawn", "see_value_knight", "see_value_bishop", "see_value_rook", "see_value_queen",
    "good_capture_margin", "qs_recapture_ply", "qs_see_margin", "delta_margin", "see_capture_margin",
    "see_quiet_margin", "razoring_depth", "razoring_margin", "rfp_depth", "rfp_margin", "rfp_base_margin",
    "rfp_quad_margin", "probcut_depth_min", "probcut_margin", "probcut_reduction", "nmp_base_r",
    "nmp_depth_divisor", "nmp_eval_divisor", "nmp_eval_max", "nmp_ply_offset", "nmp_verif_min_depth",
    "singext_min_depth", "singext_margin", "singext_tt_depth", "singext_depth_div", "iir_depth", "iir_reduction",
    "fp_depth", "fp_margin", "lmp_depth", "lmp_base", "lmp_scale", "hist_prune_depth", "hist_prune_margin",
    "lmr_min_depth", "lmr_base", "lmr_divisor", "lmr_hist_div", "killer_lmr_bonus", "check_lmr_bonus",
    "threat_lmr_bonus", "fhc_lmr_malus", "fhc_cutoff_min", "critical_lmr_bonus", "critical_lmr_cap", "lmr_retained",
    "capt_hist_divisor", "hist_bonus_mult", "hist_bonus_cap", "quiet_hist_cap", "butterfly_hist_cap",
    "cont_hist_cap", "capt_hist_cap", "tt_age_factor", "minor_corr_weight", "major_corr_weight", "corr_weight_div",
    "corr_weight_max",
];

/// The hand-picked values.
pub const DEFAULTS: [i32; 108] = [
    5, 18, 4, 160, 16, 5, 10, 9, 5, 13, 0, 80, 40, 200, 5, 500, 95, 50, 1, 80, 80, 5, 100, 5, 270, 220, 56, 125, 4,
    80, 220, 50, 100, 100, 300, 300, 500, 900, 10000, 10, 30, 30, 50, 90, 0, 92, 373, 372, 568, 1160, 182, 4, 4,
    279, 50, 37, 1, 254, 9, 45, 32, 2, 10, 227, 5, 4, 5, 237, 4, 1, 16, 5, 1, 3, 4, 5, 1, 6, 111, 5, 2, 128, 8,
    2117, 1, 87, 215, 9, 1197, 1, 1158, 604, 1, 165, 3, 1, 39, 12, 2376, 8265, 10303, 11324, 12190, 2, 114, 144, 1,
    32,
];

/// The least value each parameter takes.
pub const MINS: [i32; 108] = [
    1, 1, 1, 140, 1, 0, 0, 0, 0, 0, 0, 0, 0, 0, 0, 0, 0, 0, 0, 0, 0, 0, 10, 0, 0, 0, 0, 0, 0, 0, 0, 0, 60, 60, 200,
    200, 400, 700, 0, 0, 20, 20, 40, 70, 0, 50, 250, 250, 400, 800, 0, 2, -100, 50, 1, 1, 1, 50, 4, 15, 0, 0, 3, 50,
    1, 1, 1, 1, 1, 0, 6, 4, 1, 1, 1, 2, 1, 2, 25, 2, 1, 25, 2, 100, 1, 10, 1, 1, 64, 1, 0, 0, 0, 0, 1, 0, 4, 1, 400,
    8192, 8192, 8192, 8192, 0, 8, 8, 1, 4,
];

/// The greatest value each parameter takes.
pub const MAXS: [i32; 108] = [
    6, 32, 14, 300, 64, 17, 25, 23, 17, 29, 10, 130, 70, 310, 17, 760, 152, 85, 11, 130, 130, 17, 160, 17, 415, 340,
    94, 197, 16, 130, 340, 100, 150, 150, 350, 350, 600, 1100, 15010, 20, 60, 60, 100, 150, 10, 148, 569, 568, 862,
    1750, 300, 16, 100, 428, 85, 65, 8, 391, 20, 77, 58, 13, 10, 350, 8, 6, 14, 320, 6, 11, 24, 16, 11, 6, 4, 8, 3,
    12, 176, 10, 6, 250, 12, 3185, 6, 140, 350, 24, 1805, 3, 1747, 916, 6, 512, 24, 11, 64, 12, 3200, 32000, 32000,
    32000, 32000, 16, 181, 226, 16, 128,
];

/// The probe width a tuner starts with.
pub const STEPS: [i32; 108] = [
    1, 1, 1, 8, 3, 1, 1, 1, 1, 1, 1, 6, 3, 15, 1, 38, 7, 4, 1, 6, 6, 1, 7, 1, 20, 17, 4, 9, 1, 6, 17, 5, 4, 4, 7, 7,
    10, 20, 750, 1, 2, 2, 3, 4, 1, 4, 15, 15, 23, 47, 15, 1, 10, 18, 4, 3, 1, 17, 1, 3, 2, 1, 1, 15, 1, 1, 1, 15, 1,
    1, 1, 1, 1, 1, 1, 1, 1, 1, 7, 1, 1, 11, 1, 154, 1, 6, 17, 1, 87, 1, 87, 45, 1, 25, 1, 1, 3, 1, 140, 1190, 1190,
    1190, 1190, 1, 8, 10, 1, 6,
];

/// Which parameters are neither advertised nor settable.
pub const FROZEN: [bool; 108] = [
    false, false, false, true, true, true, true, true, true, true, true, true, true, true, true, true, true, true,
    true, true, true, true, true, true, true, true, true, true, true, true, true, true, true, true, true, true,
    true, true, true, true, true, true, true, true, true, false, false, false, false, false, false, false, false,
    false, false, false, false, false, false, false, false, false, false, false, false, false, false, false, false,
    true, false, false, false, false, false, false, false, false, false, false, false, false, false, false, false,
    false, false, false, false, false, false, false, false, false, false, true, false, false, false, false, false,
    false, false, false, false, false, false, false,
];

/// What is known of one parameter.
#[derive(Clone, Copy, Debug)]
pub struct ParamDef {
    pub name: &'static str,
    pub min: i32,
    pub max: i32,
    pub step: i32,
    pub default: i32,
    pub frozen: bool,
}

/// Parameter number `i`.
pub open spec fn def(i: int) -> ParamDef {
    ParamDef {
        name: NAMES[i],
        min: MINS[i],
        max: MAXS[i],
        step: STEPS[i],
        default: DEFAULTS[i],
        frozen: FROZEN[i],
    }
}

/// The parameters from number `i` on that are frozen, or those that are not.
pub open spec fn defs_from(i: int, frozen: bool) -> Seq<ParamDef>
    decreases PARAM_COUNT - i,
{
    if i < 0 || i >= PARAM_COUNT {
        Seq::empty()
    } else if FROZEN[i] == frozen {
        seq![def(i)] + defs_from(i + 1, frozen)
    } else {
        defs_from(i + 1, frozen)
    }
}

/// The first settable parameter from number `i` on whose name is `name`.
pub open spec fn slot_from(name: Seq<char>, i: int) -> Option<int>
    decreases PARAM_COUNT - i,
{
    if i < 0 || i >= PARAM_COUNT {
        None
    } else if !FROZEN[i] && NAMES[i]@ == name {
        Some(i)
    } else {
        slot_from(name, i + 1)
    }
}

/// The settable parameter called `name`.
pub open spec fn slot(name: Seq<char>) -> Option<int> {
    slot_from(name, 0)
}

/// `x` moved into the range from `lo` to `hi`.
pub open spec fn clamped(x: int, lo: int, hi: int) -> int {
    if x < lo {
        lo
    } else if x > hi {
        hi
    } else {
        x
    }
}

/// The values a search runs with.
#[derive(Clone, Copy, Debug)]
pub struct SearchParams {
    pub values: [i32; 108],
}

/// The least value of parameter `i` that a search runs with. Beyond the range that it is set
/// in, a reduction may start from nothing.
pub open spec fn least(i: int) -> int {
    if i == 85 {
        0
    } else {
        MINS[i] as int
    }
}

/// The greatest value of parameter `i` that a search runs with. Beyond the range that it is
/// set in, the margin of reverse futility may be so wide that it never prunes.
pub open spec fn most(i: int) -> int {
    if i == 59 {
        400
    } else {
        MAXS[i] as int
    }
}

impl SearchParams {
    /// Every value is one that a search runs with.
    pub open spec fn wf(self) -> bool {
        forall|i: int| 0 <= i < PARAM_COUNT ==> least(i) <= #[trigger] self.values[i] <= most(i)
    }

    /// The defaults.
    pub fn new() -> (p: SearchParams)
        ensures
            p.wf(),
            p.values == DEFAULTS,
    {
        let p = SearchParams { values: DEFAULTS };
        assert forall|i: int| 0 <= i < PARAM_COUNT implies least(i) <= #[trigger] p.values[i] <= most(i) by {
            lemma_defaults_fit(i);
        }
        p
    }

    /// The settable parameter called `name`.
    fn find(name: &str) -> (r: Option<usize>)
        ensures
            match r {
                Some(i) => i < PARAM_COUNT && !FROZEN[i as int] && slot(name@) == Some(i as int),
                None => slot(name@) is None,
            },
    {
        let mut i: usize = 0;
        while i < PARAM_COUNT
            invariant
                i <= PARAM_COUNT,
                slot_from(name@, i as int) == slot(name@),
            decreases PARAM_COUNT - i,
        {
            if !FROZEN[i] && text::same(NAMES[i], name) {
                return Some(i);
            }
            i = i + 1;
        }
        None
    }

    /// The value of a settable parameter.
    pub fn get(&self, name: &str) -> (r: Option<i32>)
        ensures
            r == (match slot(name@) {
                Some(i) => Some(self.values[i]),
                None => None,
            }),
    {
        match SearchParams::find(name) {
            Some(i) => Some(self.values[i]),
            None => None,
        }
    }

    /// Sets a settable parameter, moving the value into its range, and says whether there
    /// is one of that name.
    pub fn set(&mut self, name: &str, value: i32) -> (r: bool)
        requires
            old(self).wf(),
        ensures
            final(self).wf(),
            r == (slot(name@) is Some),
            final(self).values@ == (match slot(name@) {
                Some(i) => old(self).values@.update(i, clamped(value as int, MINS[i] as int, MAXS[i] as int) as i32),
                None => old(self).values@,
            }),
    {
        match SearchParams::find(name) {
            Some(i) => {
                proof {
                    lemma_defaults_fit(i as int);
                }
                let v: i32 = if value < MINS[i] {
                    MINS[i]
                } else if value > MAXS[i] {
                    MAXS[i]
                } else {
                    value
                };
                let ghost before = self.values;
                self.values[i] = v;
                assert forall|j: int| 0 <= j < PARAM_COUNT implies least(j) <= #[trigger] self.values[j] <= most(j) by {
                    if j != i {
                        assert(self.values[j] == before[j]);
                    }
                }
                true
            },
            None => false,
        }
    }

    #[verifier::allow_in_spec]
    pub fn asp_depth(&self) -> (r: i32)
        requires
            self.wf(),
        ensures
            1 <= r <= 6,
        returns
            self.values[0],
    {
        self.values[0]
    }

    #[verifier::allow_in_spec]
    pub fn asp_initial(&self) -> (r: i32)
        requires
            self.wf(),
        ensures
            1 <= r <= 32,
        returns
            self.values[1],
    {
        self.values[1]
    }

    #[verifier::allow_in_spec]
    pub fn asp_widen_div(&self) -> (r: i32)
        requires
            self.wf(),
        ensures
            1 <= r <= 14,
        returns
            self.values[2],
    {
        self.values[2]
    }

    #[verifier::allow_in_spec]
    pub fn qs_lazy_margin(&self) -> (r: i32)
        requires
            self.wf(),
        ensures
            140 <= r <= 300,
        returns
            self.values[3],
    {
        self.values[3]
    }

    #[verifier::allow_in_spec]
    pub fn qs_lazy_divisor(&self) -> (r: i32)
        requires
            self.wf(),
        ensures
            1 <= r <= 64,
        returns
            self.values[4],
    {
        self.values[4]
    }

    #[verifier::allow_in_spec]
    pub fn vol_pawn(&self) -> (r: i32)
        requires
            self.wf(),
        ensures
            0 <= r <= 17,
        returns
            self.values[5],
    {
        self.values[5]
    }

    #[verifier::allow_in_spec]
    pub fn vol_knight(&self) -> (r: i32)
        requires
            self.wf(),
        ensures
            0 <= r <= 25,
        returns
            self.values[6],
    {
        self.values[6]
    }

    #[verifier::allow_in_spec]
    pub fn vol_bishop(&self) -> (r: i32)
        requires
            self.wf(),
        ensures
            0 <= r <= 23,
        returns
            self.values[7],
    {
        self.values[7]
    }

    #[verifier::allow_in_spec]
    pub fn vol_rook(&self) -> (r: i32)
        requires
            self.wf(),
        ensures
            0 <= r <= 17,
        returns
            self.values[8],
    {
        self.values[8]
    }

    #[verifier::allow_in_spec]
    pub fn vol_queen(&self) -> (r: i32)
        requires
            self.wf(),
        ensures
            0 <= r <= 29,
        returns
            self.values[9],
    {
        self.values[9]
    }

    #[verifier::allow_in_spec]
    pub fn vol_king(&self) -> (r: i32)
        requires
            self.wf(),
        ensures
            0 <= r <= 10,
        returns
            self.values[10],
    {
        self.values[10]
    }

    #[verifier::allow_in_spec]
    pub fn mtg_opening(&self) -> (r: i32)
        requires
            self.wf(),
        ensures
            0 <= r <= 130,
        returns
            self.values[11],
    {
        self.values[11]
    }

    #[verifier::allow_in_spec]
    pub fn mtg_endgame(&self) -> (r: i32)
        requires
            self.wf(),
        ensures
            0 <= r <= 70,
        returns
            self.values[12],
    {
        self.values[12]
    }

    #[verifier::allow_in_spec]
    pub fn tm_iter_scale(&self) -> (r: i32)
        requires
            self.wf(),
        ensures
            0 <= r <= 310,
        returns
            self.values[13],
    {
        self.values[13]
    }

    #[verifier::allow_in_spec]
    pub fn tm_single_root(&self) -> (r: i32)
        requires
            self.wf(),
        ensures
            0 <= r <= 17,
        returns
            self.values[14],
    {
        self.values[14]
    }

    #[verifier::allow_in_spec]
    pub fn tm_hard_mult(&self) -> (r: i32)
        requires
            self.wf(),
        ensures
            0 <= r <= 760,
        returns
            self.values[15],
    {
        self.values[15]
    }

    #[verifier::allow_in_spec]
    pub fn tm_hard_clock_cap(&self) -> (r: i32)
        requires
            self.wf(),
        ensures
            0 <= r <= 152,
        returns
            self.values[16],
    {
        self.values[16]
    }

    #[verifier::allow_in_spec]
    pub fn tm_sd_base(&self) -> (r: i32)
        requires
            self.wf(),
        ensures
            0 <= r <= 85,
        returns
            self.values[17],
    {
        self.values[17]
    }

    #[verifier::allow_in_spec]
    pub fn tm_sd_ramp(&self) -> (r: i32)
        requires
            self.wf(),
        ensures
            0 <= r <= 11,
        returns
            self.values[18],
    {
        self.values[18]
    }

    #[verifier::allow_in_spec]
    pub fn tm_sd_cap(&self) -> (r: i32)
        requires
            self.wf(),
        ensures
            0 <= r <= 130,
        returns
            self.values[19],
    {
        self.values[19]
    }

    #[verifier::allow_in_spec]
    pub fn tm_soft_inc(&self) -> (r: i32)
        requires
            self.wf(),
        ensures
            0 <= r <= 130,
        returns
            self.values[20],
    {
        self.values[20]
    }

    #[verifier::allow_in_spec]
    pub fn score_drop_depth(&self) -> (r: i32)
        requires
            self.wf(),
        ensures
            0 <= r <= 17,
        returns
            self.values[21],
    {
        self.values[21]
    }

    #[verifier::allow_in_spec]
    pub fn score_swing_scale(&self) -> (r: i32)
        requires
            self.wf(),
        ensures
            10 <= r <= 160,
        returns
            self.values[22],
    {
        self.values[22]
    }

    #[verifier::allow_in_spec]
    pub fn effort_depth(&self) -> (r: i32)
        requires
            self.wf(),
        ensures
            0 <= r <= 17,
        returns
            self.values[23],
    {
        self.values[23]
    }

    #[verifier::allow_in_spec]
    pub fn effort_base(&self) -> (r: i32)
        requires
            self.wf(),
        ensures
            0 <= r <= 415,
        returns
            self.values[24],
    {
        self.values[24]
    }

    #[verifier::allow_in_spec]
    pub fn effort_scale(&self) -> (r: i32)
        requires
            self.wf(),
        ensures
            0 <= r <= 340,
        returns
            self.values[25],
    {
        self.values[25]
    }

    #[verifier::allow_in_spec]
    pub fn effort_floor(&self) -> (r: i32)
        requires
            self.wf(),
        ensures
            0 <= r <= 94,
        returns
            self.values[26],
    {
        self.values[26]
    }

    #[verifier::allow_in_spec]
    pub fn bm_stab_base(&self) -> (r: i32)
        requires
            self.wf(),
        ensures
            0 <= r <= 197,
        returns
            self.values[27],
    {
        self.values[27]
    }

    #[verifier::allow_in_spec]
    pub fn bm_stab_scale(&self) -> (r: i32)
        requires
            self.wf(),
        ensures
            0 <= r <= 16,
        returns
            self.values[28],
    {
        self.values[28]
    }

    #[verifier::allow_in_spec]
    pub fn bm_stab_floor(&self) -> (r: i32)
        requires
            self.wf(),
        ensures
            0 <= r <= 130,
        returns
            self.values[29],
    {
        self.values[29]
    }

    #[verifier::allow_in_spec]
    pub fn bm_inst_scale(&self) -> (r: i32)
        requires
            self.wf(),
        ensures
            0 <= r <= 340,
        returns
            self.values[30],
    {
        self.values[30]
    }

    #[verifier::allow_in_spec]
    pub fn bm_inst_decay(&self) -> (r: i32)
        requires
            self.wf(),
        ensures
            0 <= r <= 100,
        returns
            self.values[31],
    {
        self.values[31]
    }

    #[verifier::allow_in_spec]
    pub fn mvvlva_ep(&self) -> (r: i32)
        requires
            self.wf(),
        ensures
            60 <= r <= 150,
        returns
            self.values[32],
    {
        self.values[32]
    }

    #[verifier::allow_in_spec]
    pub fn mvvlva_v_pawn(&self) -> (r: i32)
        requires
            self.wf(),
        ensures
            60 <= r <= 150,
        returns
            self.values[33],
    {
        self.values[33]
    }

    #[verifier::allow_in_spec]
    pub fn mvvlva_v_knight(&self) -> (r: i32)
        requires
            self.wf(),
        ensures
            200 <= r <= 350,
        returns
            self.values[34],
    {
        self.values[34]
    }

    #[verifier::allow_in_spec]
    pub fn mvvlva_v_bishop(&self) -> (r: i32)
        requires
            self.wf(),
        ensures
            200 <= r <= 350,
        returns
            self.values[35],
    {
        self.values[35]
    }

    #[verifier::allow_in_spec]
    pub fn mvvlva_v_rook(&self) -> (r: i32)
        requires
            self.wf(),
        ensures
            400 <= r <= 600,
        returns
            self.values[36],
    {
        self.values[36]
    }

    #[verifier::allow_in_spec]
    pub fn mvvlva_v_queen(&self) -> (r: i32)
        requires
            self.wf(),
        ensures
            700 <= r <= 1100,
        returns
            self.values[37],
    {
        self.values[37]
    }

    #[verifier::allow_in_spec]
    pub fn mvvlva_v_king(&self) -> (r: i32)
        requires
            self.wf(),
        ensures
            0 <= r <= 15010,
        returns
            self.values[38],
    {
        self.values[38]
    }

    #[verifier::allow_in_spec]
    pub fn mvvlva_a_pawn(&self) -> (r: i32)
        requires
            self.wf(),
        ensures
            0 <= r <= 20,
        returns
            self.values[39],
    {
        self.values[39]
    }

    #[verifier::allow_in_spec]
    pub fn mvvlva_a_knight(&self) -> (r: i32)
        requires
            self.wf(),
        ensures
            20 <= r <= 60,
        returns
            self.values[40],
    {
        self.values[40]
    }

    #[verifier::allow_in_spec]
    pub fn mvvlva_a_bishop(&self) -> (r: i32)
        requires
            self.wf(),
        ensures
            20 <= r <= 60,
        returns
            self.values[41],
    {
        self.values[41]
    }

    #[verifier::allow_in_spec]
    pub fn mvvlva_a_rook(&self) -> (r: i32)
        requires
            self.wf(),
        ensures
            40 <= r <= 100,
        returns
            self.values[42],
    {
        self.values[42]
    }

    #[verifier::allow_in_spec]
    pub fn mvvlva_a_queen(&self) -> (r: i32)
        requires
            self.wf(),
        ensures
            70 <= r <= 150,
        returns
            self.values[43],
    {
        self.values[43]
    }

    #[verifier::allow_in_spec]
    pub fn mvvlva_a_king(&self) -> (r: i32)
        requires
            self.wf(),
        ensures
            0 <= r <= 10,
        returns
            self.values[44],
    {
        self.values[44]
    }

    #[verifier::allow_in_spec]
    pub fn see_value_pawn(&self) -> (r: i32)
        requires
            self.wf(),
        ensures
            50 <= r <= 148,
        returns
            self.values[45],
    {
        self.values[45]
    }

    #[verifier::allow_in_spec]
    pub fn see_value_knight(&self) -> (r: i32)
        requires
            self.wf(),
        ensures
            250 <= r <= 569,
        returns
            self.values[46],
    {
        self.values[46]
    }

    #[verifier::allow_in_spec]
    pub fn see_value_bishop(&self) -> (r: i32)
        requires
            self.wf(),
        ensures
            250 <= r <= 568,
        returns
            self.values[47],
    {
        self.values[47]
    }

    #[verifier::allow_in_spec]
    pub fn see_value_rook(&self) -> (r: i32)
        requires
            self.wf(),
        ensures
            400 <= r <= 862,
        returns
            self.values[48],
    {
        self.values[48]
    }

    #[verifier::allow_in_spec]
    pub fn see_value_queen(&self) -> (r: i32)
        requires
            self.wf(),
        ensures
            800 <= r <= 1750,
        returns
            self.values[49],
    {
        self.values[49]
    }

    #[verifier::allow_in_spec]
    pub fn good_capture_margin(&self) -> (r: i32)
        requires
            self.wf(),
        ensures
            0 <= r <= 300,
        returns
            self.values[50],
    {
        self.values[50]
    }

    #[verifier::allow_in_spec]
    pub fn qs_recapture_ply(&self) -> (r: i32)
        requires
            self.wf(),
        ensures
            2 <= r <= 16,
        returns
            self.values[51],
    {
        self.values[51]
    }

    #[verifier::allow_in_spec]
    pub fn qs_see_margin(&self) -> (r: i32)
        requires
            self.wf(),
        ensures
            -100 <= r <= 100,
        returns
            self.values[52],
    {
        self.values[52]
    }

    #[verifier::allow_in_spec]
    pub fn delta_margin(&self) -> (r: i32)
        requires
            self.wf(),
        ensures
            50 <= r <= 428,
        returns
            self.values[53],
    {
        self.values[53]
    }

    #[verifier::allow_in_spec]
    pub fn see_capture_margin(&self) -> (r: i32)
        requires
            self.wf(),
        ensures
            1 <= r <= 85,
        returns
            self.values[54],
    {
        self.values[54]
    }

    #[verifier::allow_in_spec]
    pub fn see_quiet_margin(&self) -> (r: i32)
        requires
            self.wf(),
        ensures
            1 <= r <= 65,
        returns
            self.values[55],
    {
        self.values[55]
    }

    #[verifier::allow_in_spec]
    pub fn razoring_depth(&self) -> (r: i32)
        requires
            self.wf(),
        ensures
            1 <= r <= 8,
        returns
            self.values[56],
    {
        self.values[56]
    }

    #[verifier::allow_in_spec]
    pub fn razoring_margin(&self) -> (r: i32)
        requires
            self.wf(),
        ensures
            50 <= r <= 391,
        returns
            self.values[57],
    {
        self.values[57]
    }

    #[verifier::allow_in_spec]
    pub fn rfp_depth(&self) -> (r: i32)
        requires
            self.wf(),
        ensures
            4 <= r <= 20,
        returns
            self.values[58],
    {
        self.values[58]
    }

    #[verifier::allow_in_spec]
    pub fn rfp_margin(&self) -> (r: i32)
        requires
            self.wf(),
        ensures
            15 <= r <= 400,
        returns
            self.values[59],
    {
        self.values[59]
    }

    #[verifier::allow_in_spec]
    pub fn rfp_base_margin(&self) -> (r: i32)
        requires
            self.wf(),
        ensures
            0 <= r <= 58,
        returns
            self.values[60],
    {
        self.values[60]
    }

    #[verifier::allow_in_spec]
    pub fn rfp_quad_margin(&self) -> (r: i32)
        requires
            self.wf(),
        ensures
            0 <= r <= 13,
        returns
            self.values[61],
    {
        self.values[61]
    }

    #[verifier::allow_in_spec]
    pub fn probcut_depth_min(&self) -> (r: i32)
        requires
            self.wf(),
        ensures
            3 <= r <= 10,
        returns
            self.values[62],
    {
        self.values[62]
    }

    #[verifier::allow_in_spec]
    pub fn probcut_margin(&self) -> (r: i32)
        requires
            self.wf(),
        ensures
            50 <= r <= 350,
        returns
            self.values[63],
    {
        self.values[63]
    }

    #[verifier::allow_in_spec]
    pub fn probcut_reduction(&self) -> (r: i32)
        requires
            self.wf(),
        ensures
            1 <= r <= 8,
        returns
            self.values[64],
    {
        self.values[64]
    }

    #[verifier::allow_in_spec]
    pub fn nmp_base_r(&self) -> (r: i32)
        requires
            self.wf(),
        ensures
            1 <= r <= 6,
        returns
            self.values[65],
    {
        self.values[65]
    }

    #[verifier::allow_in_spec]
    pub fn nmp_depth_divisor(&self) -> (r: i32)
        requires
            self.wf(),
        ensures
            1 <= r <= 14,
        returns
            self.values[66],
    {
        self.values[66]
    }

    #[verifier::allow_in_spec]
    pub fn nmp_eval_divisor(&self) -> (r: i32)
        requires
            self.wf(),
        ensures
            1 <= r <= 320,
        returns
            self.values[67],
    {
        self.values[67]
    }

    #[verifier::allow_in_spec]
    pub fn nmp_eval_max(&self) -> (r: i32)
        requires
            self.wf(),
        ensures
            1 <= r <= 6,
        returns
            self.values[68],
    {
        self.values[68]
    }

    #[verifier::allow_in_spec]
    pub fn nmp_ply_offset(&self) -> (r: i32)
        requires
            self.wf(),
        ensures
            0 <= r <= 11,
        returns
            self.values[69],
    {
        self.values[69]
    }

    #[verifier::allow_in_spec]
    pub fn nmp_verif_min_depth(&self) -> (r: i32)
        requires
            self.wf(),
        ensures
            6 <= r <= 24,
        returns
            self.values[70],
    {
        self.values[70]
    }

    #[verifier::allow_in_spec]
    pub fn singext_min_depth(&self) -> (r: i32)
        requires
            self.wf(),
        ensures
            4 <= r <= 16,
        returns
            self.values[71],
    {
        self.values[71]
    }

    #[verifier::allow_in_spec]
    pub fn singext_margin(&self) -> (r: i32)
        requires
            self.wf(),
        ensures
            1 <= r <= 11,
        returns
            self.values[72],
    {
        self.values[72]
    }

    #[verifier::allow_in_spec]
    pub fn singext_tt_depth(&self) -> (r: i32)
        requires
            self.wf(),
        ensures
            1 <= r <= 6,
        returns
            self.values[73],
    {
        self.values[73]
    }

    #[verifier::allow_in_spec]
    pub fn singext_depth_div(&self) -> (r: i32)
        requires
            self.wf(),
        ensures
            1 <= r <= 4,
        returns
            self.values[74],
    {
        self.values[74]
    }

    #[verifier::allow_in_spec]
    pub fn iir_depth(&self) -> (r: i32)
        requires
            self.wf(),
        ensures
            2 <= r <= 8,
        returns
            self.values[75],
    {
        self.values[75]
    }

    #[verifier::allow_in_spec]
    pub fn iir_reduction(&self) -> (r: i32)
        requires
            self.wf(),
        ensures
            1 <= r <= 3,
        returns
            self.values[76],
    {
        self.values[76]
    }

    #[verifier::allow_in_spec]
    pub fn fp_depth(&self) -> (r: i32)
        requires
            self.wf(),
        ensures
            2 <= r <= 12,
        returns
            self.values[77],
    {
        self.values[77]
    }

    #[verifier::allow_in_spec]
    pub fn fp_margin(&self) -> (r: i32)
        requires
            self.wf(),
        ensures
            25 <= r <= 176,
        returns
            self.values[78],
    {
        self.values[78]
    }

    #[verifier::allow_in_spec]
    pub fn lmp_depth(&self) -> (r: i32)
        requires
            self.wf(),
        ensures
            2 <= r <= 10,
        returns
            self.values[79],
    {
        self.values[79]
    }

    #[verifier::allow_in_spec]
    pub fn lmp_base(&self) -> (r: i32)
        requires
            self.wf(),
        ensures
            1 <= r <= 6,
        returns
            self.values[80],
    {
        self.values[80]
    }

    #[verifier::allow_in_spec]
    pub fn lmp_scale(&self) -> (r: i32)
        requires
            self.wf(),
        ensures
            25 <= r <= 250,
        returns
            self.values[81],
    {
        self.values[81]
    }

    #[verifier::allow_in_spec]
    pub fn hist_prune_depth(&self) -> (r: i32)
        requires
            self.wf(),
        ensures
            2 <= r <= 12,
        returns
            self.values[82],
    {
        self.values[82]
    }

    #[verifier::allow_in_spec]
    pub fn hist_prune_margin(&self) -> (r: i32)
        requires
            self.wf(),
        ensures
            100 <= r <= 3185,
        returns
            self.values[83],
    {
        self.values[83]
    }

    #[verifier::allow_in_spec]
    pub fn lmr_min_depth(&self) -> (r: i32)
        requires
            self.wf(),
        ensures
            1 <= r <= 6,
        returns
            self.values[84],
    {
        self.values[84]
    }

    #[verifier::allow_in_spec]
    pub fn lmr_base(&self) -> (r: i32)
        requires
            self.wf(),
        ensures
            0 <= r <= 140,
        returns
            self.values[85],
    {
        self.values[85]
    }

    #[verifier::allow_in_spec]
    pub fn lmr_divisor(&self) -> (r: i32)
        requires
            self.wf(),
        ensures
            1 <= r <= 350,
        returns
            self.values[86],
    {
        self.values[86]
    }

    #[verifier::allow_in_spec]
    pub fn lmr_hist_div(&self) -> (r: i32)
        requires
            self.wf(),
        ensures
            1 <= r <= 24,
        returns
            self.values[87],
    {
        self.values[87]
    }

    #[verifier::allow_in_spec]
    pub fn killer_lmr_bonus(&self) -> (r: i32)
        requires
            self.wf(),
        ensures
            64 <= r <= 1805,
        returns
            self.values[88],
    {
        self.values[88]
    }

    #[verifier::allow_in_spec]
    pub fn check_lmr_bonus(&self) -> (r: i32)
        requires
            self.wf(),
        ensures
            1 <= r <= 3,
        returns
            self.values[89],
    {
        self.values[89]
    }

    #[verifier::allow_in_spec]
    pub fn threat_lmr_bonus(&self) -> (r: i32)
        requires
            self.wf(),
        ensures
            0 <= r <= 1747,
        returns
            self.values[90],
    {
        self.values[90]
    }

    #[verifier::allow_in_spec]
    pub fn fhc_lmr_malus(&self) -> (r: i32)
        requires
            self.wf(),
        ensures
            0 <= r <= 916,
        returns
            self.values[91],
    {
        self.values[91]
    }

    #[verifier::allow_in_spec]
    pub fn fhc_cutoff_min(&self) -> (r: i32)
        requires
            self.wf(),
        ensures
            0 <= r <= 6,
        returns
            self.values[92],
    {
        self.values[92]
    }

    #[verifier::allow_in_spec]
    pub fn critical_lmr_bonus(&self) -> (r: i32)
        requires
            self.wf(),
        ensures
            0 <= r <= 512,
        returns
            self.values[93],
    {
        self.values[93]
    }

    #[verifier::allow_in_spec]
    pub fn critical_lmr_cap(&self) -> (r: i32)
        requires
            self.wf(),
        ensures
            1 <= r <= 24,
        returns
            self.values[94],
    {
        self.values[94]
    }

    #[verifier::allow_in_spec]
    pub fn lmr_retained(&self) -> (r: i32)
        requires
            self.wf(),
        ensures
            0 <= r <= 11,
        returns
            self.values[95],
    {
        self.values[95]
    }

    #[verifier::allow_in_spec]
    pub fn capt_hist_divisor(&self) -> (r: i32)
        requires
            self.wf(),
        ensures
            4 <= r <= 64,
        returns
            self.values[96],
    {
        self.values[96]
    }

    #[verifier::allow_in_spec]
    pub fn hist_bonus_mult(&self) -> (r: i32)
        requires
            self.wf(),
        ensures
            1 <= r <= 12,
        returns
            self.values[97],
    {
        self.values[97]
    }

    #[verifier::allow_in_spec]
    pub fn hist_bonus_cap(&self) -> (r: i32)
        requires
            self.wf(),
        ensures
            400 <= r <= 3200,
        returns
            self.values[98],
    {
        self.values[98]
    }

    #[verifier::allow_in_spec]
    pub fn quiet_hist_cap(&self) -> (r: i32)
        requires
            self.wf(),
        ensures
            8192 <= r <= 32000,
        returns
            self.values[99],
    {
        self.values[99]
    }

    #[verifier::allow_in_spec]
    pub fn butterfly_hist_cap(&self) -> (r: i32)
        requires
            self.wf(),
        ensures
            8192 <= r <= 32000,
        returns
            self.values[100],
    {
        self.values[100]
    }

    #[verifier::allow_in_spec]
    pub fn cont_hist_cap(&self) -> (r: i32)
        requires
            self.wf(),
        ensures
            8192 <= r <= 32000,
        returns
            self.values[101],
    {
        self.values[101]
    }

    #[verifier::allow_in_spec]
    pub fn capt_hist_cap(&self) -> (r: i32)
        requires
            self.wf(),
        ensures
            8192 <= r <= 32000,
        returns
            self.values[102],
    {
        self.values[102]
    }

    #[verifier::allow_in_spec]
    pub fn tt_age_factor(&self) -> (r: i32)
        requires
            self.wf(),
        ensures
            0 <= r <= 16,
        returns
            self.values[103],
    {
        self.values[103]
    }

    #[verifier::allow_in_spec]
    pub fn minor_corr_weight(&self) -> (r: i32)
        requires
            self.wf(),
        ensures
            8 <= r <= 181,
        returns
            self.values[104],
    {
        self.values[104]
    }

    #[verifier::allow_in_spec]
    pub fn major_corr_weight(&self) -> (r: i32)
        requires
            self.wf(),
        ensures
            8 <= r <= 226,
        returns
            self.values[105],
    {
        self.values[105]
    }

    #[verifier::allow_in_spec]
    pub fn corr_weight_div(&self) -> (r: i32)
        requires
            self.wf(),
        ensures
            1 <= r <= 16,
        returns
            self.values[106],
    {
        self.values[106]
    }

    #[verifier::allow_in_spec]
    pub fn corr_weight_max(&self) -> (r: i32)
        requires
            self.wf(),
        ensures
            4 <= r <= 128,
        returns
            self.values[107],
    {
        self.values[107]
    }
}

impl Default for SearchParams {
    fn default() -> (p: SearchParams)
        ensures
            p.wf(),
            p.values == DEFAULTS,
    {
        SearchParams::new()
    }
}

/// Each default lies in its range, and each range holds a value.
pub proof fn lemma_defaults_fit(i: int)
    requires
        0 <= i < PARAM_COUNT,
    ensures
        MINS[i] <= DEFAULTS[i] <= MAXS[i],
        STEPS[i] > 0,
{
}

/// The parameters that are frozen, or those that are not, in order.
fn param_defs(frozen: bool) -> (v: Vec<ParamDef>)
    ensures
        v@ == defs_from(0, frozen),
{
    let mut v: Vec<ParamDef> = Vec::new();
    let mut i: usize = 0;
    assert(v@ + defs_from(0, frozen) =~= defs_from(0, frozen));
    while i < PARAM_COUNT
        invariant
            i <= PARAM_COUNT,
            v@ + defs_from(i as int, frozen) == defs_from(0, frozen),
        decreases PARAM_COUNT - i,
    {
        if FROZEN[i] == frozen {
            let ghost v0 = v@;
            let d = ParamDef {
                name: NAMES[i],
                min: MINS[i],
                max: MAXS[i],
                step: STEPS[i],
                default: DEFAULTS[i],
                frozen: FROZEN[i],
            };
            v.push(d);
            assert(v@ + defs_from(i + 1, frozen) =~= v0 + (seq![d] + defs_from(i + 1, frozen)));
        }
        i = i + 1;
    }
    assert(v@ =~= defs_from(0, frozen));
    v
}

/// The parameters that can be set.
pub fn tunable_param_defs() -> (v: Vec<ParamDef>)
    ensures
        v@ == defs_from(0, false),
{
    param_defs(false)
}

/// The parameters that cannot be set.
pub fn frozen_param_defs() -> (v: Vec<ParamDef>)
    ensures
        v@ == defs_from(0, true),
{
    param_defs(true)
}

/// One line of the tuning table: `name, int, value, min, max, c_end, r_end`.
pub open spec fn spsa_line(d: ParamDef) -> Seq<char> {
    d.name@ + ", int, "@ + text::decimal(d.default as int) + ", "@ + text::decimal(d.min as int) + ", "@ + text::decimal(
        d.max as int,
    ) + ", "@ + text::decimal(d.step as int) + ", 0.002\n"@
}

/// One line of the UCI option list.
pub open spec fn option_line(d: ParamDef) -> Seq<char> {
    "option name "@ + d.name@ + " type spin default "@ + text::decimal(d.default as int) + " min "@ + text::decimal(
        d.min as int,
    ) + " max "@ + text::decimal(d.max as int) + "\n"@
}

/// The lines of the first `n` parameters of a list, of the tuning table or of the options.
pub open spec fn lines(v: Seq<ParamDef>, n: nat, spsa: bool) -> Seq<char>
    decreases n,
{
    if n == 0 {
        Seq::empty()
    } else {
        lines(v, (n - 1) as nat, spsa) + (if spsa {
            spsa_line(v[n - 1])
        } else {
            option_line(v[n - 1])
        })
    }
}

/// Appends one line of the tuning table.
fn append_spsa_line(out: &mut String, d: &ParamDef)
    ensures
        final(out)@ == old(out)@ + spsa_line(*d),
{
    let ghost before = out@;
    out.append(d.name);
    out.append(", int, ");
    text::append_int(out, d.default as i64);
    out.append(", ");
    text::append_int(out, d.min as i64);
    out.append(", ");
    text::append_int(out, d.max as i64);
    out.append(", ");
    text::append_int(out, d.step as i64);
    out.append(", 0.002\n");
    assert(out@ =~= before + spsa_line(*d));
}

/// Appends one line of the option list.
fn append_option_line(out: &mut String, d: &ParamDef)
    ensures
        final(out)@ == old(out)@ + option_line(*d),
{
    let ghost before = out@;
    out.append("option name ");
    out.append(d.name);
    out.append(" type spin default ");
    text::append_int(out, d.default as i64);
    out.append(" min ");
    text::append_int(out, d.min as i64);
    out.append(" max ");
    text::append_int(out, d.max as i64);
    out.append("\n");
    assert(out@ =~= before + option_line(*d));
}

/// The tunables as an SPSA table, one parameter a line.
pub fn spsa_table() -> (s: String)
    ensures
        s@ == lines(defs_from(0, false), defs_from(0, false).len(), true),
{
    let v = tunable_param_defs();
    let mut out = String::new();
    let mut i: usize = 0;
    assert(out@ =~= lines(v@, 0, true));
    while i < v.len()
        invariant
            i <= v@.len(),
            out@ == lines(v@, i as nat, true),
        decreases v@.len() - i,
    {
        append_spsa_line(&mut out, &v[i]);
        i = i + 1;
    }
    out
}

/// The tunables as UCI spin options, one a line.
pub fn uci_options() -> (s: String)
    ensures
        s@ == lines(defs_from(0, false), defs_from(0, false).len(), false),
{
    let v = tunable_param_defs();
    let mut out = String::new();
    let mut i: usize = 0;
    assert(out@ =~= lines(v@, 0, false));
    while i < v.len()
        invariant
            i <= v@.len(),
            out@ == lines(v@, i as nat, false),
        decreases v@.len() - i,
    {
        append_option_line(&mut out, &v[i]);
        i = i + 1;
    }
    out
}

/// Each parameter is read under the name that it is advertised and set by.
pub proof fn law_parameters_go_by_their_names(p: SearchParams)
    ensures
        NAMES[0]@ == "asp_depth"@ && p.asp_depth() == p.values[0],
        NAMES[1]@ == "asp_initial"@ && p.asp_initial() == p.values[1],
        NAMES[2]@ == "asp_widen_div"@ && p.asp_widen_div() == p.values[2],
        NAMES[3]@ == "qs_lazy_margin"@ && p.qs_lazy_margin() == p.values[3],
        NAMES[4]@ == "qs_lazy_divisor"@ && p.qs_lazy_divisor() == p.values[4],
        NAMES[5]@ == "vol_pawn"@ && p.vol_pawn() == p.values[5],
        NAMES[6]@ == "vol_knight"@ && p.vol_knight() == p.values[6],
        NAMES[7]@ == "vol_bishop"@ && p.vol_bishop() == p.values[7],
        NAMES[8]@ == "vol_rook"@ && p.vol_rook() == p.values[8],
        NAMES[9]@ == "vol_queen"@ && p.vol_queen() == p.values[9],
        NAMES[10]@ == "vol_king"@ && p.vol_king() == p.values[10],
        NAMES[11]@ == "mtg_opening"@ && p.mtg_opening() == p.values[11],
        NAMES[12]@ == "mtg_endgame"@ && p.mtg_endgame() == p.values[12],
        NAMES[13]@ == "tm_iter_scale"@ && p.tm_iter_scale() == p.values[13],
        NAMES[14]@ == "tm_single_root"@ && p.tm_single_root() == p.values[14],
        NAMES[15]@ == "tm_hard_mult"@ && p.tm_hard_mult() == p.values[15],
        NAMES[16]@ == "tm_hard_clock_cap"@ && p.tm_hard_clock_cap() == p.values[16],
        NAMES[17]@ == "tm_sd_base"@ && p.tm_sd_base() == p.values[17],
        NAMES[18]@ == "tm_sd_ramp"@ && p.tm_sd_ramp() == p.values[18],
        NAMES[19]@ == "tm_sd_cap"@ && p.tm_sd_cap() == p.values[19],
        NAMES[20]@ == "tm_soft_inc"@ && p.tm_soft_inc() == p.values[20],
        NAMES[21]@ == "score_drop_depth"@ && p.score_drop_depth() == p.values[21],
        NAMES[22]@ == "score_swing_scale"@ && p.score_swing_scale() == p.values[22],
        NAMES[23]@ == "effort_depth"@ && p.effort_depth() == p.values[23],
        NAMES[24]@ == "effort_base"@ && p.effort_base() == p.values[24],
        NAMES[25]@ == "effort_scale"@ && p.effort_scale() == p.values[25],
        NAMES[26]@ == "effort_floor"@ && p.effort_floor() == p.values[26],
        NAMES[27]@ == "bm_stab_base"@ && p.bm_stab_base() == p.values[27],
        NAMES[28]@ == "bm_stab_scale"@ && p.bm_stab_scale() == p.values[28],
        NAMES[29]@ == "bm_stab_floor"@ && p.bm_stab_floor() == p.values[29],
        NAMES[30]@ == "bm_inst_scale"@ && p.bm_inst_scale() == p.values[30],
        NAMES[31]@ == "bm_inst_decay"@ && p.bm_inst_decay() == p.values[31],
        NAMES[32]@ == "mvvlva_ep"@ && p.mvvlva_ep() == p.values[32],
        NAMES[33]@ == "mvvlva_v_pawn"@ && p.mvvlva_v_pawn() == p.values[33],
        NAMES[34]@ == "mvvlva_v_knight"@ && p.mvvlva_v_knight() == p.values[34],
        NAMES[35]@ == "mvvlva_v_bishop"@ && p.mvvlva_v_bishop() == p.values[35],
        NAMES[36]@ == "mvvlva_v_rook"@ && p.mvvlva_v_rook() == p.values[36],
        NAMES[37]@ == "mvvlva_v_queen"@ && p.mvvlva_v_queen() == p.values[37],
        NAMES[38]@ == "mvvlva_v_king"@ && p.mvvlva_v_king() == p.values[38],
        NAMES[39]@ == "mvvlva_a_pawn"@ && p.mvvlva_a_pawn() == p.values[39],
        NAMES[40]@ == "mvvlva_a_knight"@ && p.mvvlva_a_knight() == p.values[40],
        NAMES[41]@ == "mvvlva_a_bishop"@ && p.mvvlva_a_bishop() == p.values[41],
        NAMES[42]@ == "mvvlva_a_rook"@ && p.mvvlva_a_rook() == p.values[42],
        NAMES[43]@ == "mvvlva_a_queen"@ && p.mvvlva_a_queen() == p.values[43],
        NAMES[44]@ == "mvvlva_a_king"@ && p.mvvlva_a_king() == p.values[44],
        NAMES[45]@ == "see_value_pawn"@ && p.see_value_pawn() == p.values[45],
        NAMES[46]@ == "see_value_knight"@ && p.see_value_knight() == p.values[46],
        NAMES[47]@ == "see_value_bishop"@ && p.see_value_bishop() == p.values[47],
        NAMES[48]@ == "see_value_rook"@ && p.see_value_rook() == p.values[48],
        NAMES[49]@ == "see_value_queen"@ && p.see_value_queen() == p.values[49],
        NAMES[50]@ == "good_capture_margin"@ && p.good_capture_margin() == p.values[50],
        NAMES[51]@ == "qs_recapture_ply"@ && p.qs_recapture_ply() == p.values[51],
        NAMES[52]@ == "qs_see_margin"@ && p.qs_see_margin() == p.values[52],
        NAMES[53]@ == "delta_margin"@ && p.delta_margin() == p.values[53],
        NAMES[54]@ == "see_capture_margin"@ && p.see_capture_margin() == p.values[54],
        NAMES[55]@ == "see_quiet_margin"@ && p.see_quiet_margin() == p.values[55],
        NAMES[56]@ == "razoring_depth"@ && p.razoring_depth() == p.values[56],
        NAMES[57]@ == "razoring_margin"@ && p.razoring_margin() == p.values[57],
        NAMES[58]@ == "rfp_depth"@ && p.rfp_depth() == p.values[58],
        NAMES[59]@ == "rfp_margin"@ && p.rfp_margin() == p.values[59],
        NAMES[60]@ == "rfp_base_margin"@ && p.rfp_base_margin() == p.values[60],
        NAMES[61]@ == "rfp_quad_margin"@ && p.rfp_quad_margin() == p.values[61],
        NAMES[62]@ == "probcut_depth_min"@ && p.probcut_depth_min() == p.values[62],
        NAMES[63]@ == "probcut_margin"@ && p.probcut_margin() == p.values[63],
        NAMES[64]@ == "probcut_reduction"@ && p.probcut_reduction() == p.values[64],
        NAMES[65]@ == "nmp_base_r"@ && p.nmp_base_r() == p.values[65],
        NAMES[66]@ == "nmp_depth_divisor"@ && p.nmp_depth_divisor() == p.values[66],
        NAMES[67]@ == "nmp_eval_divisor"@ && p.nmp_eval_divisor() == p.values[67],
        NAMES[68]@ == "nmp_eval_max"@ && p.nmp_eval_max() == p.values[68],
        NAMES[69]@ == "nmp_ply_offset"@ && p.nmp_ply_offset() == p.values[69],
        NAMES[70]@ == "nmp_verif_min_depth"@ && p.nmp_verif_min_depth() == p.values[70],
        NAMES[71]@ == "singext_min_depth"@ && p.singext_min_depth() == p.values[71],
        NAMES[72]@ == "singext_margin"@ && p.singext_margin() == p.values[72],
        NAMES[73]@ == "singext_tt_depth"@ && p.singext_tt_depth() == p.values[73],
        NAMES[74]@ == "singext_depth_div"@ && p.singext_depth_div() == p.values[74],
        NAMES[75]@ == "iir_depth"@ && p.iir_depth() == p.values[75],
        NAMES[76]@ == "iir_reduction"@ && p.iir_reduction() == p.values[76],
        NAMES[77]@ == "fp_depth"@ && p.fp_depth() == p.values[77],
        NAMES[78]@ == "fp_margin"@ && p.fp_margin() == p.values[78],
        NAMES[79]@ == "lmp_depth"@ && p.lmp_depth() == p.values[79],
        NAMES[80]@ == "lmp_base"@ && p.lmp_base() == p.values[80],
        NAMES[81]@ == "lmp_scale"@ && p.lmp_scale() == p.values[81],
        NAMES[82]@ == "hist_prune_depth"@ && p.hist_prune_depth() == p.values[82],
        NAMES[83]@ == "hist_prune_margin"@ && p.hist_prune_margin() == p.values[83],
        NAMES[84]@ == "lmr_min_depth"@ && p.lmr_min_depth() == p.values[84],
        NAMES[85]@ == "lmr_base"@ && p.lmr_base() == p.values[85],
        NAMES[86]@ == "lmr_divisor"@ && p.lmr_divisor() == p.values[86],
        NAMES[87]@ == "lmr_hist_div"@ && p.lmr_hist_div() == p.values[87],
        NAMES[88]@ == "killer_lmr_bonus"@ && p.killer_lmr_bonus() == p.values[88],
        NAMES[89]@ == "check_lmr_bonus"@ && p.check_lmr_bonus() == p.values[89],
        NAMES[90]@ == "threat_lmr_bonus"@ && p.threat_lmr_bonus() == p.values[90],
        NAMES[91]@ == "fhc_lmr_malus"@ && p.fhc_lmr_malus() == p.values[91],
        NAMES[92]@ == "fhc_cutoff_min"@ && p.fhc_cutoff_min() == p.values[92],
        NAMES[93]@ == "critical_lmr_bonus"@ && p.critical_lmr_bonus() == p.values[93],
        NAMES[94]@ == "critical_lmr_cap"@ && p.critical_lmr_cap() == p.values[94],
        NAMES[95]@ == "lmr_retained"@ && p.lmr_retained() == p.values[95],
        NAMES[96]@ == "capt_hist_divisor"@ && p.capt_hist_divisor() == p.values[96],
        NAMES[97]@ == "hist_bonus_mult"@ && p.hist_bonus_mult() == p.values[97],
        NAMES[98]@ == "hist_bonus_cap"@ && p.hist_bonus_cap() == p.values[98],
        NAMES[99]@ == "quiet_hist_cap"@ && p.quiet_hist_cap() == p.values[99],
        NAMES[100]@ == "butterfly_hist_cap"@ && p.butterfly_hist_cap() == p.values[100],
        NAMES[101]@ == "cont_hist_cap"@ && p.cont_hist_cap() == p.values[101],
        NAMES[102]@ == "capt_hist_cap"@ && p.capt_hist_cap() == p.values[102],
        NAMES[103]@ == "tt_age_factor"@ && p.tt_age_factor() == p.values[103],
        NAMES[104]@ == "minor_corr_weight"@ && p.minor_corr_weight() == p.values[104],
        NAMES[105]@ == "major_corr_weight"@ && p.major_corr_weight() == p.values[105],
        NAMES[106]@ == "corr_weight_div"@ && p.corr_weight_div() == p.values[106],
        NAMES[107]@ == "corr_weight_max"@ && p.corr_weight_max() == p.values[107],
{
}

/// The default of every parameter is one that it may take, and a name that is found is that of a
/// settable parameter, none before it having the same.
pub proof fn law_a_name_finds_its_parameter(name: Seq<char>)
    ensures
        slot(name) matches Some(i) ==> 0 <= i < PARAM_COUNT && !FROZEN[i] && NAMES[i]@ == name,
        slot(name) is None ==> forall|i: int| 0 <= i < PARAM_COUNT && !FROZEN[i] ==> (#[trigger] NAMES[i])@ != name,
{
    lemma_slot_found(name, 0);
}

proof fn lemma_slot_found(name: Seq<char>, i: int)
    requires
        0 <= i,
    ensures
        slot_from(name, i) matches Some(k) ==> i <= k < PARAM_COUNT && !FROZEN[k] && NAMES[k]@ == name,
        slot_from(name, i) is None ==> forall|k: int| i <= k < PARAM_COUNT && !FROZEN[k] ==> (#[trigger] NAMES[k])@ != name,
    decreases PARAM_COUNT - i,
{
    if i < PARAM_COUNT {
        lemma_slot_found(name, i + 1);
    }
}

/// A value is moved no further than into its range.
pub proof fn law_a_value_is_moved_into_its_range(x: int, lo: int, hi: int)
    requires
        lo <= hi,
    ensures
        lo <= clamped(x, lo, hi) <= hi,
        lo <= x <= hi ==> clamped(x, lo, hi) == x,
        clamped(x, lo, hi) > x ==> clamped(x, lo, hi) == lo,
        clamped(x, lo, hi) < x ==> clamped(x, lo, hi) == hi,
{
}

/// The parameters that are listed as frozen and those that are not make up all of them, each
/// where it belongs and in the order of the table.
pub proof fn law_every_parameter_is_listed_once(i: int)
    requires
        0 <= i < PARAM_COUNT,
    ensures
        defs_from(0, FROZEN[i]).contains(def(i)),
        forall|d: ParamDef, frozen: bool| #[trigger] defs_from(0, frozen).contains(d) ==> d.frozen == frozen,
        defs_from(0, true).len() + defs_from(0, false).len() == PARAM_COUNT,
{
    lemma_listed(0, i);
}

proof fn lemma_listed(j: int, i: int)
    requires
        0 <= j <= PARAM_COUNT,
        0 <= i < PARAM_COUNT,
    ensures
        j <= i ==> defs_from(j, FROZEN[i]).contains(def(i)),
        forall|d: ParamDef, frozen: bool| #[trigger] defs_from(j, frozen).contains(d) ==> d.frozen == frozen,
        defs_from(j, true).len() + defs_from(j, false).len() == PARAM_COUNT - j,
    decreases PARAM_COUNT - j,
{
    if j < PARAM_COUNT {
        lemma_listed(j + 1, i);
        let f = FROZEN[j];
        let rest = defs_from(j + 1, f);
        let all = defs_from(j, f);
        assert(all == seq![def(j)] + rest);
        assert(all[0] == def(j));
        assert forall|d: ParamDef| rest.contains(d) implies #[trigger] all.contains(d) by {
            let k = choose|k: int| 0 <= k < rest.len() && rest[k] == d;
            assert(all[k + 1] == d);
        }
        assert forall|d: ParamDef| #[trigger] all.contains(d) implies d.frozen == f by {
            let k = choose|k: int| 0 <= k < all.len() && all[k] == d;
            if k > 0 {
                assert(rest[k - 1] == d);
                assert(rest.contains(d));
            }
        }
        assert(defs_from(j, !f) == defs_from(j + 1, !f));
        if j <= i {
            if i == j {
                assert(all.contains(def(i)));
            }
        }
    }
}

} // verus!
