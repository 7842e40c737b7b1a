//! The numbers that pruning, reductions and history bonuses go by.

use vstd::prelude::*;

use crate::chess::defs::MATE_BOUND;
use crate::engine::history;
use crate::engine::config::LMR_SCALE;
use crate::engine::search_params::SearchParams;

verus! {

/// Depths stay far from the ends of a machine word.
pub open spec fn sane_depth(depth: int) -> bool {
    -10_000 <= depth <= 1000
}

/// The margin of reverse futility pruning: wider with depth, narrower where the position
/// has been improving.
pub open spec fn rfp_span(depth: int, improving: bool, sp: SearchParams) -> int {
    sp.rfp_base_margin() + sp.rfp_margin() * (depth - history::flag(improving)) + sp.rfp_quad_margin() * depth * depth
}

/// Reverse futility pruning: the score of a node whose evaluation is so far above `beta`
/// that not even the margin brings it back, halfway between the two.
pub fn rfp_cutoff(eval: i32, beta: i32, depth: i32, improving: bool, sp: &SearchParams) -> (r: Option<i32>)
    requires
        sp.wf(),
        -MATE_BOUND <= eval <= MATE_BOUND,
        -31_000 <= beta <= 31_000,
        1 <= depth <= sp.rfp_depth(),
    ensures
        r == (if eval - rfp_span(depth as int, improving, *sp) >= beta {
            Some(history::quotient(eval + beta, 2) as i32)
        } else {
            None
        }),
        r matches Some(x) ==> beta <= x <= eval,
{
    let up: i32 = if improving {
        1
    } else {
        0
    };
    let m: i32 = sp.rfp_margin();
    let q: i32 = sp.rfp_quad_margin();
    let d: i32 = depth - up;
    proof {
        assert(-400 <= m * d <= 400 * 20) by (nonlinear_arith)
            requires
                15 <= m <= 400,
                -1 <= d <= 20,
        ;
        assert(0 <= q * depth <= 13 * 20) by (nonlinear_arith)
            requires
                0 <= q <= 13,
                0 <= depth <= 20,
        ;
        let qd = q * depth;
        assert(0 <= qd * depth <= 13 * 20 * 20) by (nonlinear_arith)
            requires
                0 <= qd <= 13 * 20,
                0 <= depth <= 20,
        ;
    }
    let margin: i32 = sp.rfp_base_margin() + m * d + q * depth * depth;
    if eval - margin >= beta {
        Some((eval + beta) / 2)
    } else {
        None
    }
}

/// Whether a node is so far below `alpha` that the quiescence search alone may settle it.
pub fn razors(static_eval: i32, alpha: i32, depth: i32, sp: &SearchParams) -> (r: bool)
    requires
        sp.wf(),
        -MATE_BOUND <= static_eval <= MATE_BOUND,
        sane_depth(depth as int),
    ensures
        r == (depth <= sp.razoring_depth() && static_eval + sp.razoring_margin() * depth < alpha),
{
    let m: i32 = sp.razoring_margin();
    if depth > sp.razoring_depth() {
        return false;
    }
    proof {
        assert(-391 * 10_000 <= m * depth <= 391 * 1000) by (nonlinear_arith)
            requires
                50 <= m <= 391,
                -10_000 <= depth <= 1000,
        ;
    }
    static_eval + m * depth < alpha
}

/// The depth left after a null move: reduced by a base, a share of the depth, and a share
/// of the lead over `beta`.
pub open spec fn null_depth_spec(depth: int, eval: int, beta: int, sp: SearchParams) -> int {
    let lead = history::quotient(eval - beta, sp.nmp_eval_divisor() as int);
    let eval_r = if lead < sp.nmp_eval_max() {
        lead
    } else {
        sp.nmp_eval_max() as int
    };
    let left = depth - (sp.nmp_base_r() + depth / (sp.nmp_depth_divisor() as int) + eval_r) - sp.nmp_ply_offset();
    if left > 0 {
        left
    } else {
        0
    }
}

/// [`null_depth_spec`]; always below the depth of the node.
pub fn null_depth(depth: i32, eval: i32, beta: i32, sp: &SearchParams) -> (r: i32)
    requires
        sp.wf(),
        1 <= depth <= 1000,
        -31_000 <= beta <= eval <= 31_000,
    ensures
        r == null_depth_spec(depth as int, eval as int, beta as int, *sp),
        0 <= r < depth,
{
    let lead: i32 = (eval - beta) / sp.nmp_eval_divisor();
    proof {
        let x = (eval - beta) as int;
        let d = sp.nmp_eval_divisor() as int;
        assert(0 <= x / d <= x) by (nonlinear_arith)
            requires
                x >= 0,
                d >= 1,
        ;
        let n = sp.nmp_depth_divisor() as int;
        let dd = depth as int;
        assert(0 <= dd / n <= dd) by (nonlinear_arith)
            requires
                dd >= 0,
                n >= 1,
        ;
    }
    let eval_r: i32 = if lead < sp.nmp_eval_max() {
        lead
    } else {
        sp.nmp_eval_max()
    };
    let r: i32 = sp.nmp_base_r() + depth / sp.nmp_depth_divisor() + eval_r;
    let left: i32 = depth - r - sp.nmp_ply_offset();
    if left > 0 {
        left
    } else {
        0
    }
}

/// Futility pruning: a quiet move cannot lift a static evaluation this far below `alpha`.
pub fn futile(static_eval: i32, alpha: i32, depth: i32, sp: &SearchParams) -> (r: bool)
    requires
        sp.wf(),
        -MATE_BOUND <= static_eval <= MATE_BOUND,
        sane_depth(depth as int),
    ensures
        r == (depth <= sp.fp_depth() && static_eval + sp.fp_margin() * depth <= alpha),
{
    let m: i32 = sp.fp_margin();
    if depth > sp.fp_depth() {
        return false;
    }
    proof {
        assert(-176 * 10_000 <= m * depth <= 176 * 1000) by (nonlinear_arith)
            requires
                25 <= m <= 176,
                -10_000 <= depth <= 1000,
        ;
    }
    static_eval + m * depth <= alpha
}

/// Late move pruning: enough moves have been tried at this depth.
pub fn late(move_count: usize, depth: i32, sp: &SearchParams) -> (r: bool)
    requires
        sp.wf(),
        sane_depth(depth as int),
    ensures
        r == (depth <= sp.lmp_depth() && move_count >= sp.lmp_base() + depth * depth),
{
    if depth > sp.lmp_depth() {
        return false;
    }
    proof {
        assert(0 <= depth * depth <= 10_000 * 10_000) by (nonlinear_arith)
            requires
                -10_000 <= depth <= 10_000,
        ;
    }
    let enough: i32 = sp.lmp_base() + depth * depth;
    move_count >= enough as usize
}

/// History pruning: the move has failed again and again.
pub fn disgraced(hist: i32, depth: i32, sp: &SearchParams) -> (r: bool)
    requires
        sp.wf(),
        sane_depth(depth as int),
    ensures
        r == (depth <= sp.hist_prune_depth() && hist < -(sp.hist_prune_margin() * depth)),
{
    let m: i32 = sp.hist_prune_margin();
    if depth > sp.hist_prune_depth() {
        return false;
    }
    proof {
        assert(-3185 * 10_000 <= m * depth <= 3185 * 1000) by (nonlinear_arith)
            requires
                100 <= m <= 3185,
                -10_000 <= depth <= 1000,
        ;
    }
    hist < -(m * depth)
}

/// What an exchange may lose before the move is pruned: linear in the depth for a capture,
/// quadratic for a quiet move, whose worth mostly lies elsewhere on the board.
pub open spec fn see_allowance(capture: bool, depth: int, sp: SearchParams) -> int {
    if capture {
        -(sp.see_capture_margin() * depth)
    } else {
        -(sp.see_quiet_margin() * depth * depth)
    }
}

/// [`see_allowance`].
pub fn see_margin(capture: bool, depth: i32, sp: &SearchParams) -> (r: i32)
    requires
        sp.wf(),
        -100 <= depth <= 1000,
    ensures
        r == see_allowance(capture, depth as int, *sp),
        -100_000_000 <= r <= 100_000_000,
{
    let c: i32 = sp.see_capture_margin();
    let q: i32 = sp.see_quiet_margin();
    proof {
        assert(-85 * 100 <= c * depth <= 85 * 1000) by (nonlinear_arith)
            requires
                1 <= c <= 85,
                -100 <= depth <= 1000,
        ;
        assert(-65 * 100 <= q * depth <= 65 * 1000) by (nonlinear_arith)
            requires
                1 <= q <= 65,
                -100 <= depth <= 1000,
        ;
        let qd = q * depth;
        assert(-65_000_000 <= qd * depth <= 65_000_000) by (nonlinear_arith)
            requires
                -65_000 <= qd <= 65_000,
                -100 <= depth <= 1000,
        ;
    }
    if capture {
        -(c * depth)
    } else {
        -(q * depth * depth)
    }
}

/// What a late quiet move is reduced by, in units of [`LMR_SCALE`], before its bounds:
/// killers, moves that attack dearer men and moves with a good history less, moves at
/// nodes whose children cut off or that have not been improving more.
pub open spec fn raw_reduction(
    base: int,
    killer: bool,
    threats: int,
    cutoffs: int,
    improving: bool,
    hist: int,
    depth: int,
    sp: SearchParams,
) -> int {
    let stalled = if 384 - depth * 12 > 96 {
        384 - depth * 12
    } else {
        96
    };
    base - (if killer {
        sp.killer_lmr_bonus() as int
    } else {
        0
    }) - threats * sp.threat_lmr_bonus() + (if cutoffs > 2 {
        sp.fhc_lmr_malus() as int
    } else {
        0
    }) + (if improving {
        0
    } else {
        stalled
    }) - history::quotient(hist, sp.lmr_hist_div() as int)
}

/// How many plies a late quiet move is reduced by.
pub open spec fn reduced(
    base: int,
    killer: bool,
    threats: int,
    cutoffs: int,
    improving: bool,
    hist: int,
    depth: int,
    sp: SearchParams,
) -> int {
    let most = (if depth > sp.lmr_retained() {
        depth - sp.lmr_retained()
    } else {
        0
    }) * LMR_SCALE;
    history::clamped(raw_reduction(base, killer, threats, cutoffs, improving, hist, depth, sp), 0, most) / (LMR_SCALE as int)
}

/// [`reduced`].
pub fn reduction(
    base: i32,
    killer: bool,
    threats: u32,
    cutoffs: i32,
    improving: bool,
    hist: i32,
    depth: i32,
    sp: &SearchParams,
) -> (r: i32)
    requires
        sp.wf(),
        0 <= base <= 4_000_000,
        threats <= 64,
        -200_000 <= hist <= 200_000,
        0 <= depth <= 1000,
    ensures
        r == reduced(base as int, killer, threats as int, cutoffs as int, improving, hist as int, depth as int, *sp),
        0 <= r <= depth,
{
    let t: i32 = threats as i32;
    let b: i32 = sp.threat_lmr_bonus();
    let d: i32 = sp.lmr_hist_div();
    proof {
        assert(0 <= t * b <= 64 * 1747) by (nonlinear_arith)
            requires
                0 <= t <= 64,
                0 <= b <= 1747,
        ;
        lemma_share(hist as int, d as int, 200_000);
    }
    let mut x: i32 = base;
    if killer {
        x = x - sp.killer_lmr_bonus();
    }
    x = x - t * b;
    if cutoffs > 2 {
        x = x + sp.fhc_lmr_malus();
    }
    if !improving {
        let stalled: i32 = 384 - depth * 12;
        x = x + (if stalled > 96 {
            stalled
        } else {
            96
        });
    }
    let share: i32 = hist / d;
    assert(share == history::quotient(hist as int, d as int));
    x = x - share;
    let most: i32 = (if depth > sp.lmr_retained() {
        depth - sp.lmr_retained()
    } else {
        0
    }) * LMR_SCALE;
    let bounded: i32 = if x < 0 {
        0
    } else if x > most {
        most
    } else {
        x
    };
    bounded / LMR_SCALE
}

/// A share is no larger than the whole.
proof fn lemma_share(x: int, d: int, bound: int)
    requires
        -bound <= x <= bound,
        d >= 1,
    ensures
        -bound <= history::quotient(x, d) <= bound,
{
    if x >= 0 {
        assert(0 <= x / d <= x) by (nonlinear_arith)
            requires
                x >= 0,
                d >= 1,
        ;
    } else {
        let y = -x;
        assert(0 <= y / d <= y) by (nonlinear_arith)
            requires
                y >= 0,
                d >= 1,
        ;
    }
}

/// What a cutoff at `depth` earns in the history tables: quadratic in the depth, capped so
/// that no single deep search rules a table.
pub open spec fn earned(depth: int, sp: SearchParams) -> int {
    if depth * depth * sp.hist_bonus_mult() < sp.hist_bonus_cap() {
        depth * depth * sp.hist_bonus_mult()
    } else {
        sp.hist_bonus_cap() as int
    }
}

/// [`earned`].
pub fn history_bonus(depth: i32, sp: &SearchParams) -> (r: i32)
    requires
        sp.wf(),
        -100 <= depth <= 1000,
    ensures
        r == earned(depth as int, *sp),
        0 <= r <= 3200,
{
    let m: i32 = sp.hist_bonus_mult();
    proof {
        assert(0 <= depth * depth <= 1_000_000) by (nonlinear_arith)
            requires
                -100 <= depth <= 1000,
        ;
        let dd = depth * depth;
        assert(0 <= dd * m <= 12_000_000) by (nonlinear_arith)
            requires
                0 <= dd <= 1_000_000,
                1 <= m <= 12,
        ;
    }
    let x: i32 = depth * depth * m;
    if x < sp.hist_bonus_cap() {
        x
    } else {
        sp.hist_bonus_cap()
    }
}

/// The margin of reverse futility widens by a step with each ply, a longer one the deeper it gets,
/// and a position that has been improving needs one step less.
pub proof fn law_the_futility_margin_widens_with_depth(depth: int, improving: bool, sp: SearchParams)
    requires
        sp.wf(),
        depth >= 0,
    ensures
        rfp_span(depth, false, sp) - rfp_span(depth, true, sp) == sp.rfp_margin(),
        rfp_span(depth + 1, improving, sp) - rfp_span(depth, improving, sp) == sp.rfp_margin() + sp.rfp_quad_margin() * (2
            * depth + 1),
        rfp_span(depth + 1, improving, sp) > rfp_span(depth, improving, sp),
        rfp_span(0, false, sp) == sp.rfp_base_margin(),
{
    let m = sp.rfp_margin() as int;
    let q = sp.rfp_quad_margin() as int;
    let u = history::flag(improving);
    assert(m * (depth - 0) - m * (depth - 1) == m) by (nonlinear_arith);
    assert(m * (depth + 1 - u) - m * (depth - u) == m) by (nonlinear_arith);
    assert(q * (depth + 1) * (depth + 1) - q * depth * depth == q * (2 * depth + 1)) by (nonlinear_arith);
    assert(q * (2 * depth + 1) >= 0) by (nonlinear_arith)
        requires
            q >= 0,
            depth >= 0,
    ;
    assert(m * (0 - 0) == 0 && q * 0 * 0 == 0) by (nonlinear_arith);
}

/// After a null move a node is searched at least the base shallower and a ply, never to a negative
/// depth, and the further it is ahead the shallower, up to a limit.
pub proof fn law_a_null_move_is_searched_shallower(depth: int, a: int, b: int, beta: int, sp: SearchParams)
    requires
        sp.wf(),
        depth >= 1,
        beta <= a <= b,
    ensures
        0 <= null_depth_spec(depth, b, beta, sp) <= null_depth_spec(depth, a, beta, sp),
        null_depth_spec(depth, a, beta, sp) == 0 || null_depth_spec(depth, a, beta, sp) <= depth - sp.nmp_base_r()
            - sp.nmp_ply_offset(),
        // Level with beta, the depth alone says how much.
        depth > sp.nmp_base_r() + depth / (sp.nmp_depth_divisor() as int) + sp.nmp_ply_offset() ==> null_depth_spec(
            depth,
            beta,
            beta,
            sp,
        ) + sp.nmp_base_r() + depth / (sp.nmp_depth_divisor() as int) + sp.nmp_ply_offset() == depth,
        // Far ahead, the limit does.
        a - beta >= sp.nmp_eval_divisor() * sp.nmp_eval_max() && depth > sp.nmp_base_r() + depth / (sp.nmp_depth_divisor() as int)
            + sp.nmp_eval_max() + sp.nmp_ply_offset() ==> null_depth_spec(depth, a, beta, sp) + sp.nmp_base_r() + depth / (
        sp.nmp_depth_divisor() as int) + sp.nmp_eval_max() + sp.nmp_ply_offset() == depth,
{
    let d = sp.nmp_eval_divisor() as int;
    let n = sp.nmp_depth_divisor() as int;
    let m = sp.nmp_eval_max() as int;
    let x = a - beta;
    let y = b - beta;
    vstd::arithmetic::div_mod::lemma_div_is_ordered(x, y, d);
    vstd::arithmetic::div_mod::lemma_div_is_ordered(0, x, d);
    assert(0int / d == 0 && depth / n >= 0) by (nonlinear_arith)
        requires
            d >= 1,
            n >= 1,
            depth >= 1,
    ;
    if x >= d * m {
        vstd::arithmetic::div_mod::lemma_div_is_ordered(d * m, x, d);
        assert(d * m / d == m) by (nonlinear_arith)
            requires
                d >= 1,
        ;
    }
}

/// What a capture may lose grows with the depth, what a quiet move may lose with its square, and
/// neither is let off more than that.
pub proof fn law_deeper_nodes_let_exchanges_lose_more(depth: int, sp: SearchParams)
    requires
        sp.wf(),
    ensures
        see_allowance(true, 2 * depth, sp) == 2 * see_allowance(true, depth, sp),
        see_allowance(false, 2 * depth, sp) == 4 * see_allowance(false, depth, sp),
        see_allowance(true, 1, sp) == -sp.see_capture_margin(),
        see_allowance(false, 1, sp) == -sp.see_quiet_margin(),
        depth >= 0 ==> see_allowance(true, depth, sp) <= 0 && see_allowance(false, depth, sp) <= 0,
{
    let c = sp.see_capture_margin() as int;
    let q = sp.see_quiet_margin() as int;
    assert(c * (2 * depth) == 2 * (c * depth)) by (nonlinear_arith);
    assert(q * (2 * depth) * (2 * depth) == 4 * (q * depth * depth)) by (nonlinear_arith);
    assert(c * 1 == c && q * 1 * 1 == q);
    if depth >= 0 {
        assert(c * depth >= 0 && q * depth * depth >= 0) by (nonlinear_arith)
            requires
                c >= 0,
                q >= 0,
                depth >= 0,
        ;
    }
}

/// What each circumstance adds to a reduction or takes off it, over whatever else there is:
/// killers, threats and a good history take off, children that cut off and a position that does
/// not improve add.
pub proof fn law_each_circumstance_has_its_share_of_a_reduction(
    base: int,
    killer: bool,
    threats: int,
    cutoffs: int,
    improving: bool,
    hist: int,
    depth: int,
    sp: SearchParams,
)
    requires
        sp.wf(),
    ensures
        raw_reduction(base, false, threats, cutoffs, improving, hist, depth, sp) - raw_reduction(
            base,
            true,
            threats,
            cutoffs,
            improving,
            hist,
            depth,
            sp,
        ) == sp.killer_lmr_bonus(),
        raw_reduction(base, killer, threats, cutoffs, improving, hist, depth, sp) - raw_reduction(
            base,
            killer,
            threats + 1,
            cutoffs,
            improving,
            hist,
            depth,
            sp,
        ) == sp.threat_lmr_bonus(),
        raw_reduction(base, killer, threats, 3, improving, hist, depth, sp) - raw_reduction(
            base,
            killer,
            threats,
            2,
            improving,
            hist,
            depth,
            sp,
        ) == sp.fhc_lmr_malus(),
        raw_reduction(base, killer, threats, cutoffs, false, hist, depth, sp) - raw_reduction(
            base,
            killer,
            threats,
            cutoffs,
            true,
            hist,
            depth,
            sp,
        ) >= 96,
        depth <= 24 ==> raw_reduction(base, killer, threats, cutoffs, false, hist, depth, sp) - raw_reduction(
            base,
            killer,
            threats,
            cutoffs,
            true,
            hist,
            depth,
            sp,
        ) == 384 - 12 * depth,
        raw_reduction(base + 1, killer, threats, cutoffs, improving, hist, depth, sp) == raw_reduction(
            base,
            killer,
            threats,
            cutoffs,
            improving,
            hist,
            depth,
            sp,
        ) + 1,
        raw_reduction(base, killer, threats, cutoffs, improving, hist + sp.lmr_hist_div(), depth, sp) == raw_reduction(
            base,
            killer,
            threats,
            cutoffs,
            improving,
            hist,
            depth,
            sp,
        ) - 1 || -sp.lmr_hist_div() < hist < 0,
        raw_reduction(base, false, 0, 0, true, 0, depth, sp) == base,
{
    let t = sp.threat_lmr_bonus() as int;
    let d = sp.lmr_hist_div() as int;
    assert((threats + 1) * t == threats * t + t) by (nonlinear_arith);
    assert(0 * t == 0);
    assert(0int / d == 0) by (nonlinear_arith)
        requires
            d >= 1,
    ;
    if hist >= 0 {
        vstd::arithmetic::div_mod::lemma_div_plus_one(hist, d);
    } else if hist <= -d {
        vstd::arithmetic::div_mod::lemma_div_plus_one(-hist - d, d);
        if hist == -d {
            assert(d / d == 1) by (nonlinear_arith)
                requires
                    d >= 1,
            ;
        }
    }
}

/// A reduction is a whole number of plies, at least none, and leaves the plies that are kept; a
/// larger raw reduction never reduces less.
pub proof fn law_a_reduction_leaves_some_depth(
    base: int,
    more: int,
    killer: bool,
    threats: int,
    cutoffs: int,
    improving: bool,
    hist: int,
    depth: int,
    sp: SearchParams,
)
    requires
        sp.wf(),
        base <= more,
        depth >= 0,
    ensures
        0 <= reduced(base, killer, threats, cutoffs, improving, hist, depth, sp),
        reduced(base, killer, threats, cutoffs, improving, hist, depth, sp) <= reduced(
            more,
            killer,
            threats,
            cutoffs,
            improving,
            hist,
            depth,
            sp,
        ),
        depth > sp.lmr_retained() ==> reduced(base, killer, threats, cutoffs, improving, hist, depth, sp) <= depth
            - sp.lmr_retained(),
        depth <= sp.lmr_retained() ==> reduced(base, killer, threats, cutoffs, improving, hist, depth, sp) == 0,
        ({
            let x = raw_reduction(base, killer, threats, cutoffs, improving, hist, depth, sp);
            0 <= x <= 1024 * (depth - sp.lmr_retained()) ==> 1024 * reduced(
                base,
                killer,
                threats,
                cutoffs,
                improving,
                hist,
                depth,
                sp,
            ) <= x < 1024 * reduced(base, killer, threats, cutoffs, improving, hist, depth, sp) + 1024
        }),
{
}

/// A cutoff earns with the square of its depth, up to the cap: twice the depth earns four times
/// as much where the cap is far, and no depth earns more than the cap or less than nothing.
pub proof fn law_a_cutoff_earns_with_the_square_of_its_depth(depth: int, sp: SearchParams)
    requires
        sp.wf(),
    ensures
        0 <= earned(depth, sp) <= sp.hist_bonus_cap(),
        earned(2 * depth, sp) < sp.hist_bonus_cap() ==> earned(2 * depth, sp) == 4 * earned(depth, sp),
        sp.hist_bonus_mult() < sp.hist_bonus_cap() ==> earned(1, sp) == sp.hist_bonus_mult(),
        earned(0, sp) == 0,
{
    let m = sp.hist_bonus_mult() as int;
    assert((2 * depth) * (2 * depth) * m == 4 * (depth * depth * m)) by (nonlinear_arith);
    assert(depth * depth * m >= 0) by (nonlinear_arith)
        requires
            m >= 0,
    ;
    assert(0 * 0 * m == 0 && 1 * 1 * m == m) by (nonlinear_arith);
}

} // verus!
