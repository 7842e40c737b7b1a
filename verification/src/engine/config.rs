//! What a search is told: its limits, its display and its tuning.

use std::sync::atomic::{AtomicBool, AtomicU64};
use std::sync::Arc;
use std::time::Instant;

use vstd::prelude::*;

use crate::chess::moves::Move;
use crate::chess::types::PieceType;
use crate::engine::search_params::SearchParams;

verus! {

/// One ply in units of late move reduction. Reductions add up in fractions of a ply, so an
/// adjustment can move one by half a ply instead of rounding to nothing or to a whole one.
pub const LMR_SCALE: i32 = 1024;

/// `ln(i)` times [`LMR_SCALE`], rounded.
pub const LMR_LOG: [i16; 247] = [
    0, 0, 710, 1125, 1420, 1648, 1835, 1993, 2129, 2250, 2358, 2455, 2545, 2627, 2702, 2773, 2839, 2901, 2960,
    3015, 3068, 3118, 3165, 3211, 3254, 3296, 3336, 3375, 3412, 3448, 3483, 3516, 3549, 3580, 3611, 3641, 3670,
    3698, 3725, 3751, 3777, 3803, 3827, 3851, 3875, 3898, 3921, 3943, 3964, 3985, 4006, 4026, 4046, 4066, 4085,
    4104, 4122, 4140, 4158, 4175, 4193, 4210, 4226, 4243, 4259, 4275, 4290, 4306, 4321, 4336, 4350, 4365, 4379,
    4393, 4407, 4421, 4435, 4448, 4461, 4474, 4487, 4500, 4512, 4525, 4537, 4549, 4561, 4573, 4585, 4596, 4608,
    4619, 4630, 4641, 4652, 4663, 4674, 4685, 4695, 4705, 4716, 4726, 4736, 4746, 4756, 4766, 4775, 4785, 4795,
    4804, 4813, 4823, 4832, 4841, 4850, 4859, 4868, 4876, 4885, 4894, 4902, 4911, 4919, 4928, 4936, 4944, 4952,
    4960, 4968, 4976, 4984, 4992, 5000, 5008, 5015, 5023, 5031, 5038, 5046, 5053, 5060, 5068, 5075, 5082, 5089,
    5096, 5103, 5110, 5117, 5124, 5131, 5138, 5144, 5151, 5158, 5164, 5171, 5178, 5184, 5191, 5197, 5203, 5210,
    5216, 5222, 5228, 5235, 5241, 5247, 5253, 5259, 5265, 5271, 5277, 5283, 5289, 5295, 5300, 5306, 5312, 5318,
    5323, 5329, 5335, 5340, 5346, 5351, 5357, 5362, 5368, 5373, 5378, 5384, 5389, 5394, 5400, 5405, 5410, 5415,
    5420, 5425, 5431, 5436, 5441, 5446, 5451, 5456, 5461, 5466, 5471, 5475, 5480, 5485, 5490, 5495, 5500, 5504,
    5509, 5514, 5518, 5523, 5528, 5532, 5537, 5542, 5546, 5551, 5555, 5560, 5564, 5569, 5573, 5577, 5582, 5586,
    5591, 5595, 5599, 5604, 5608, 5612, 5616, 5621, 5625, 5629, 5633, 5637,
];

/// A point in time, as [`std::time::Instant`] has it.
#[verifier::external_type_specification]
#[verifier::external_body]
pub struct ExInstant(std::time::Instant);

/// How the engine is spoken to.
#[derive(Clone, Copy, Debug, PartialEq, Eq, Structural)]
pub enum Protocol {
    Uci,
    XBoard,
}

/// What bounds a search. Zero stands for no bound.
#[derive(Clone, Debug)]
pub struct Limits {
    pub wtime: u64,
    pub btime: u64,
    pub winc: u64,
    pub binc: u64,
    pub movestogo: u64,
    pub movetime: u64,
    pub depth: i32,
    pub nodes: u64,
    pub softnodes: u64,
    pub infinite: bool,
    pub silent: bool,
    pub protocol: Protocol,
    pub mate: Option<i32>,
    pub perft: Option<u8>,
    pub searchmoves: Vec<Move>,
}

impl Limits {
    /// Whether nothing is bounded and nothing asked for but a search over UCI.
    pub open spec fn open_ended(self) -> bool {
        &&& self.wtime == 0 && self.btime == 0 && self.winc == 0 && self.binc == 0
        &&& self.movestogo == 0 && self.movetime == 0 && self.depth == 0
        &&& self.nodes == 0 && self.softnodes == 0
        &&& !self.infinite && !self.silent
        &&& self.protocol == Protocol::Uci
        &&& self.mate is None && self.perft is None
        &&& self.searchmoves@ == Seq::<Move>::empty()
    }
}

impl Default for Limits {
    fn default() -> (l: Limits)
        ensures
            l.open_ended(),
    {
        Limits {
            wtime: 0,
            btime: 0,
            winc: 0,
            binc: 0,
            movestogo: 0,
            movetime: 0,
            depth: 0,
            nodes: 0,
            softnodes: 0,
            infinite: false,
            silent: false,
            protocol: Protocol::Uci,
            mate: None,
            perft: None,
            searchmoves: Vec::new(),
        }
    }
}

/// What a search shows.
#[derive(Clone, Copy, Debug, PartialEq, Eq, Structural)]
pub struct SearchDisplay {
    pub show_wdl: bool,
    pub go_pretty: bool,
    pub pretty_print: bool,
    pub show_currmove: bool,
    pub use_ansi: bool,
}

impl SearchDisplay {
    /// Nothing.
    #[verifier::allow_in_spec]
    pub fn silent() -> SearchDisplay
        returns
            (SearchDisplay { show_wdl: false, go_pretty: false, pretty_print: false, show_currmove: false, use_ansi: false }),
    {
        SearchDisplay { show_wdl: false, go_pretty: false, pretty_print: false, show_currmove: false, use_ansi: false }
    }

    /// The move being searched, and colour.
    #[verifier::allow_in_spec]
    pub fn standard() -> SearchDisplay
        returns
            (SearchDisplay { show_wdl: false, go_pretty: false, pretty_print: false, show_currmove: true, use_ansi: true }),
    {
        SearchDisplay { show_wdl: false, go_pretty: false, pretty_print: false, show_currmove: true, use_ansi: true }
    }
}

/// What a captured man of kind `pt` counts for when captures are ordered.
pub open spec fn victim_value(sp: SearchParams, pt: PieceType) -> i32 {
    match pt {
        PieceType::Pawn => sp.mvvlva_v_pawn(),
        PieceType::Knight => sp.mvvlva_v_knight(),
        PieceType::Bishop => sp.mvvlva_v_bishop(),
        PieceType::Rook => sp.mvvlva_v_rook(),
        PieceType::Queen => sp.mvvlva_v_queen(),
        PieceType::King => sp.mvvlva_v_king(),
        PieceType::Empty => 0,
    }
}

/// What a capture by a man of kind `pt` is marked down by when captures are ordered.
pub open spec fn attacker_penalty(sp: SearchParams, pt: PieceType) -> i32 {
    match pt {
        PieceType::Pawn => sp.mvvlva_a_pawn(),
        PieceType::Knight => sp.mvvlva_a_knight(),
        PieceType::Bishop => sp.mvvlva_a_bishop(),
        PieceType::Rook => sp.mvvlva_a_rook(),
        PieceType::Queen => sp.mvvlva_a_queen(),
        PieceType::King => sp.mvvlva_a_king(),
        PieceType::Empty => 0,
    }
}

/// The smaller of `x` and the last place of [`LMR_LOG`].
pub open spec fn log_place(x: int) -> int {
    if x < 0 {
        0
    } else if x > 246 {
        246
    } else {
        x
    }
}

/// What one search thread is told.
pub struct SearchConfig {
    pub limits: Limits,
    pub start_time: Instant,
    pub stop: Arc<AtomicBool>,
    pub display: SearchDisplay,
    pub search_params: SearchParams,
    pub overhead: u64,
    pub threads: usize,
    pub thread_id: usize,
    /// One node counter per thread; each thread writes its own.
    pub node_slots: Arc<Vec<AtomicU64>>,
    /// [`victim_value`] by kind.
    pub mvvlva_v: [i32; 8],
    /// [`attacker_penalty`] by kind.
    pub mvvlva_a: [i32; 8],
}

impl SearchConfig {
    /// The tuning is in range, the ordering tables are built from it, and the thread has a
    /// node counter.
    pub open spec fn wf(self) -> bool {
        &&& self.search_params.wf()
        &&& forall|pt: PieceType| #[trigger] self.mvvlva_v[pt.index()] == victim_value(self.search_params, pt)
        &&& forall|pt: PieceType| #[trigger] self.mvvlva_a[pt.index()] == attacker_penalty(self.search_params, pt)
        &&& self.thread_id < self.node_slots@.len()
    }

    /// A single-threaded configuration with the default display.
    pub fn new(
        limits: Limits,
        start_time: Instant,
        stop: Arc<AtomicBool>,
        overhead: u64,
        search_params: SearchParams,
    ) -> (cfg: SearchConfig)
        requires
            search_params.wf(),
        ensures
            cfg.wf(),
            cfg.limits == limits,
            cfg.start_time == start_time,
            cfg.stop == stop,
            cfg.overhead == overhead,
            cfg.display == SearchDisplay::standard(),
            cfg.search_params == search_params,
            cfg.threads == 1,
            cfg.thread_id == 0,
            cfg.node_slots@.len() == 1,
    {
        SearchConfig::new_full(limits, start_time, stop, overhead, SearchDisplay::standard(), search_params)
    }

    /// A single-threaded configuration.
    pub fn new_full(
        limits: Limits,
        start_time: Instant,
        stop: Arc<AtomicBool>,
        overhead: u64,
        display: SearchDisplay,
        search_params: SearchParams,
    ) -> (cfg: SearchConfig)
        requires
            search_params.wf(),
        ensures
            cfg.wf(),
            cfg.limits == limits,
            cfg.start_time == start_time,
            cfg.stop == stop,
            cfg.overhead == overhead,
            cfg.display == display,
            cfg.search_params == search_params,
            cfg.threads == 1,
            cfg.thread_id == 0,
            cfg.node_slots@.len() == 1,
    {
        let mvvlva_v = SearchConfig::victim_values(&search_params);
        let mvvlva_a = SearchConfig::attacker_penalties(&search_params);
        SearchConfig {
            limits,
            start_time,
            stop,
            display,
            search_params,
            overhead,
            threads: 1,
            thread_id: 0,
            node_slots: SearchConfig::node_slots(1),
            mvvlva_v,
            mvvlva_a,
        }
    }

    /// One node counter, at zero, for each of `threads` threads.
    pub fn node_slots(threads: usize) -> (slots: Arc<Vec<AtomicU64>>)
        ensures
            slots@.len() == threads,
    {
        let mut v: Vec<AtomicU64> = Vec::new();
        while v.len() < threads
            invariant
                v@.len() <= threads,
            decreases threads - v@.len(),
        {
            v.push(AtomicU64::new(0));
        }
        Arc::new(v)
    }

    /// Most valuable victim first: what each kind counts for.
    fn victim_values(sp: &SearchParams) -> (v: [i32; 8])
        requires
            sp.wf(),
        ensures
            forall|pt: PieceType| #[trigger] v[pt.index()] == victim_value(*sp, pt),
    {
        [
            sp.mvvlva_v_pawn(),
            sp.mvvlva_v_knight(),
            sp.mvvlva_v_bishop(),
            sp.mvvlva_v_rook(),
            sp.mvvlva_v_queen(),
            sp.mvvlva_v_king(),
            0,
            0,
        ]
    }

    /// Least valuable attacker first: what each kind is marked down by.
    fn attacker_penalties(sp: &SearchParams) -> (v: [i32; 8])
        requires
            sp.wf(),
        ensures
            forall|pt: PieceType| #[trigger] v[pt.index()] == attacker_penalty(*sp, pt),
    {
        [
            sp.mvvlva_a_pawn(),
            sp.mvvlva_a_knight(),
            sp.mvvlva_a_bishop(),
            sp.mvvlva_a_rook(),
            sp.mvvlva_a_queen(),
            sp.mvvlva_a_king(),
            0,
            0,
        ]
    }

    /// What [`SearchConfig::lmr`] returns.
    pub open spec fn lmr_spec(self, depth: int, move_count: int) -> int {
        self.search_params.lmr_base() * LMR_SCALE / 100 + LMR_LOG[log_place(depth)] * LMR_LOG[log_place(move_count)] / (
        self.search_params.lmr_divisor() * LMR_SCALE / 100)
    }

    /// The reduction of move number `move_count` at `depth`, in units of [`LMR_SCALE`]:
    /// `base + ln(depth) * ln(move_count) / divisor`. Past the table, the logarithm stays
    /// at its last value.
    pub fn lmr(&self, depth: i32, move_count: usize) -> (r: i32)
        requires
            self.search_params.wf(),
        ensures
            r == self.lmr_spec(depth as int, move_count as int),
            0 <= r <= 4_000_000,
    {
        let sp = &self.search_params;
        let base: i32 = sp.lmr_base() * LMR_SCALE / 100;
        let div: i32 = sp.lmr_divisor() * LMR_SCALE / 100;
        let d: usize = if depth < 0 {
            0
        } else if depth > 246 {
            246
        } else {
            depth as usize
        };
        let m: usize = if move_count > 246 {
            246
        } else {
            move_count
        };
        let log_depth: i32 = LMR_LOG[d] as i32;
        let log_moves: i32 = LMR_LOG[m] as i32;
        proof {
            lemma_logs_fit(d as int);
            lemma_logs_fit(m as int);
            assert(0 <= log_depth * log_moves <= 5637 * 5637) by (nonlinear_arith)
                requires
                    0 <= log_depth <= 5637,
                    0 <= log_moves <= 5637,
            ;
            assert(0 <= log_depth * log_moves / (div as int) <= log_depth * log_moves / 10) by (nonlinear_arith)
                requires
                    div >= 10,
                    0 <= log_depth * log_moves,
            ;
        }
        base + log_depth * log_moves / div
    }
}

/// The logarithms are at most that of the last place.
proof fn lemma_logs_fit(i: int)
    requires
        0 <= i < 247,
    ensures
        0 <= LMR_LOG[i] <= 5637,
{
}

/// No logarithm is below the one before it.
#[verifier::rlimit(60)]
proof fn lemma_log_step(i: int)
    requires
        0 <= i < 246,
    ensures
        LMR_LOG[i] <= LMR_LOG[i + 1],
{
}

/// The logarithms grow.
proof fn lemma_logs_grow(i: int, j: int)
    requires
        0 <= i <= j < 247,
    ensures
        LMR_LOG[i] <= LMR_LOG[j],
    decreases j - i,
{
    if i < j {
        lemma_logs_grow(i, j - 1);
        lemma_log_step(j - 1);
    }
}

/// The deeper and the later, the more a move is reduced; depth and number count alike; and where
/// either is one, the reduction is the base alone.
pub proof fn law_reductions_grow(cfg: SearchConfig, d: int, e: int, m: int, n: int)
    requires
        cfg.search_params.lmr_divisor() >= 1,
        d <= e,
        m <= n,
    ensures
        cfg.lmr_spec(d, m) <= cfg.lmr_spec(e, n),
        cfg.lmr_spec(d, m) == cfg.lmr_spec(m, d),
        d <= 1 || m <= 1 ==> cfg.lmr_spec(d, m) == cfg.search_params.lmr_base() * LMR_SCALE / 100,
        cfg.lmr_spec(d, m) >= cfg.search_params.lmr_base() * LMR_SCALE / 100,
{
    let a = LMR_LOG[log_place(d)] as int;
    let b = LMR_LOG[log_place(m)] as int;
    let x = LMR_LOG[log_place(e)] as int;
    let y = LMR_LOG[log_place(n)] as int;
    let div = cfg.search_params.lmr_divisor() * LMR_SCALE / 100;
    lemma_logs_fit(log_place(d));
    lemma_logs_fit(log_place(m));
    lemma_logs_grow(log_place(d), log_place(e));
    lemma_logs_grow(log_place(m), log_place(n));
    assert(div >= 1);
    assert(LMR_LOG[0] == 0 && LMR_LOG[1] == 0);
    assert(a * b == b * a && 0 <= a * b <= x * y && (a == 0 || b == 0 ==> a * b == 0)) by (nonlinear_arith)
        requires
            0 <= a <= x,
            0 <= b <= y,
    ;
    vstd::arithmetic::div_mod::lemma_div_is_ordered(0, a * b, div);
    vstd::arithmetic::div_mod::lemma_div_is_ordered(a * b, x * y, div);
    assert(0int / div == 0) by (nonlinear_arith)
        requires
            div >= 1,
    ;
}

/// Each kind of man has its own two parameters in the order of captures, and a worth in the
/// order of the men.
pub proof fn law_each_kind_has_its_ordering_parameters(sp: SearchParams)
    requires
        sp.wf(),
    ensures
        victim_value(sp, PieceType::Pawn) == sp.mvvlva_v_pawn() && attacker_penalty(sp, PieceType::Pawn) == sp.mvvlva_a_pawn(),
        victim_value(sp, PieceType::Knight) == sp.mvvlva_v_knight() && attacker_penalty(sp, PieceType::Knight)
            == sp.mvvlva_a_knight(),
        victim_value(sp, PieceType::Bishop) == sp.mvvlva_v_bishop() && attacker_penalty(sp, PieceType::Bishop)
            == sp.mvvlva_a_bishop(),
        victim_value(sp, PieceType::Rook) == sp.mvvlva_v_rook() && attacker_penalty(sp, PieceType::Rook) == sp.mvvlva_a_rook(),
        victim_value(sp, PieceType::Queen) == sp.mvvlva_v_queen() && attacker_penalty(sp, PieceType::Queen)
            == sp.mvvlva_a_queen(),
        victim_value(sp, PieceType::King) == sp.mvvlva_v_king() && attacker_penalty(sp, PieceType::King) == sp.mvvlva_a_king(),
        victim_value(sp, PieceType::Pawn) < victim_value(sp, PieceType::Knight),
        victim_value(sp, PieceType::Knight) < victim_value(sp, PieceType::Rook) < victim_value(sp, PieceType::Queen),
        victim_value(sp, PieceType::Pawn) < victim_value(sp, PieceType::Bishop) < victim_value(sp, PieceType::Rook),
{
}

/// The reduction is the base and the product of the two logarithms over the divisor, on one scale.
pub proof fn law_reductions_are_a_base_and_a_product_of_logarithms(cfg: SearchConfig, d: int, m: int, q: int)
    requires
        0 <= d <= 246,
        0 <= m <= 246,
        cfg.search_params.lmr_divisor() >= 1,
        q == cfg.lmr_spec(d, m) - cfg.search_params.lmr_base() * LMR_SCALE / 100,
    ensures
        q * (cfg.search_params.lmr_divisor() * LMR_SCALE / 100) <= LMR_LOG[d] * LMR_LOG[m],
        LMR_LOG[d] * LMR_LOG[m] < (q + 1) * (cfg.search_params.lmr_divisor() * LMR_SCALE / 100),
        cfg.lmr_spec(1000, m) == cfg.lmr_spec(246, m),
{
    let x = LMR_LOG[d] * LMR_LOG[m];
    let div = cfg.search_params.lmr_divisor() * LMR_SCALE / 100;
    assert(div >= 1);
    assert((x / div) * div <= x < (x / div + 1) * div) by (nonlinear_arith)
        requires
            div >= 1,
    ;
}

} // verus!
