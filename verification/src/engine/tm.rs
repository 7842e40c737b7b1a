//! Time budgets of a search, in milliseconds.
//!
//! The soft limit decides whether another iteration is started, the hard limit ends the
//! one that runs. Neither is set for an infinite or unclocked search. A fixed time per move
//! sets both to that time less the overhead. What the clock allows otherwise is weighed by
//! the caller, who then gets its limits from [`clocked_budget`].

use std::time::Instant;

use vstd::prelude::*;

use crate::chess::types::Color;
use crate::engine::config::Limits;
use crate::engine::search_params::SearchParams;

verus! {

/// The milliseconds since `start`, by [`std::time::Instant::elapsed`]. Nothing is claimed of
/// the number: it depends on when the call is made.
#[verifier::external_body]
pub(crate) fn elapsed_ms(start: &Instant) -> (ms: u64) {
    start.elapsed().as_millis() as u64
}

/// How long a search may take. `None` stands for no limit.
#[derive(Clone, Copy, Debug, PartialEq, Eq)]
pub struct Budget {
    pub soft: Option<u64>,
    pub hard: Option<u64>,
}

impl Budget {
    /// No limits.
    pub fn unbounded() -> (b: Budget)
        ensures
            b.soft is None,
            b.hard is None,
    {
        Budget { soft: None, hard: None }
    }

    /// Whether there is a hard limit.
    pub fn is_finite(&self) -> (r: bool)
        ensures
            r == (self.hard is Some),
    {
        self.hard.is_some()
    }

    /// Whether the hard limit has passed.
    pub fn is_hard_limit_reached(&self, elapsed: u64) -> (r: bool)
        ensures
            r == (self.hard matches Some(h) && elapsed >= h),
    {
        match self.hard {
            Some(h) => elapsed >= h,
            None => false,
        }
    }

    /// Whether no further iteration should start: the soft limit has passed, or the next
    /// iteration, judged by the previous one, would pass the hard limit.
    pub fn should_stop(&self, elapsed: u64, prev_depth: u64, sp: &SearchParams) -> (r: bool)
        requires
            sp.wf(),
        ensures
            r == ((self.soft matches Some(s) && elapsed >= s) || (self.hard matches Some(h) && elapsed + prev_depth
                * sp.tm_iter_scale() / 100 > h)),
    {
        let scale: u128 = sp.tm_iter_scale() as u128;
        let p: u128 = prev_depth as u128;
        proof {
            assert(0 <= p * scale <= 310 * 0xffff_ffff_ffff_ffff) by (nonlinear_arith)
                requires
                    0 <= p <= 0xffff_ffff_ffff_ffff,
                    0 <= scale <= 310,
            ;
        }
        let next: u128 = elapsed as u128 + p * scale / 100;
        let soft_passed = match self.soft {
            Some(s) => elapsed >= s,
            None => false,
        };
        let hard_ahead = match self.hard {
            Some(h) => next > h as u128,
            None => false,
        };
        soft_passed || hard_ahead
    }
}

/// A time less the overhead, at least a millisecond: a search without any time would abort
/// on entry.
pub open spec fn trimmed(ms: int, overhead: int) -> int {
    if ms - overhead < 1 {
        1
    } else {
        ms - overhead
    }
}

/// [`trimmed`].
pub fn with_overhead(ms: u64, overhead: u64) -> (r: u64)
    ensures
        r == trimmed(ms as int, overhead as int),
{
    let left: u64 = ms.saturating_sub(overhead);
    if left < 1 {
        1
    } else {
        left
    }
}

/// The clock of one side.
#[derive(Clone, Copy, Debug, PartialEq, Eq, Structural)]
pub struct Clock {
    pub time: u64,
    pub inc: u64,
    pub movestogo: u64,
    pub game_ply: u64,
}

impl Clock {
    /// The clock of side `stm`.
    pub fn for_stm(limits: &Limits, stm: Color, game_ply: u64) -> (c: Clock)
        ensures
            c.time == (if stm == Color::White {
                limits.wtime
            } else {
                limits.btime
            }),
            c.inc == (if stm == Color::White {
                limits.winc
            } else {
                limits.binc
            }),
            c.movestogo == limits.movestogo,
            c.game_ply == game_ply,
    {
        match stm {
            Color::White => Clock { time: limits.wtime, inc: limits.winc, movestogo: limits.movestogo, game_ply },
            Color::Black => Clock { time: limits.btime, inc: limits.binc, movestogo: limits.movestogo, game_ply },
        }
    }

    pub fn is_unclocked(&self) -> (r: bool)
        ensures
            r == (self.time == 0 && self.inc == 0),
    {
        self.time == 0 && self.inc == 0
    }

    /// What is left of the time once the overhead of every move to come is set aside.
    pub open spec fn spare(self, overhead: int) -> int {
        let reserve = if self.movestogo > 0 {
            overhead * (self.movestogo + 1)
        } else {
            0
        };
        if self.time > reserve {
            self.time - reserve
        } else {
            0
        }
    }

    /// The clock with the overhead of every move to come set aside.
    pub fn usable(&self, overhead: u64) -> (c: Clock)
        ensures
            c.time == self.spare(overhead as int),
            c.inc == self.inc,
            c.movestogo == self.movestogo,
            c.game_ply == self.game_ply,
    {
        if self.movestogo == 0 {
            return *self;
        }
        let o: u128 = overhead as u128;
        let n: u128 = self.movestogo as u128 + 1;
        proof {
            assert(0 <= o * n <= 0xffff_ffff_ffff_ffff * 0x1_0000_0000_0000_0000) by (nonlinear_arith)
                requires
                    0 <= o <= 0xffff_ffff_ffff_ffff,
                    0 <= n <= 0x1_0000_0000_0000_0000,
            ;
        }
        let reserve: u128 = o * n;
        let t: u128 = self.time as u128;
        let time: u64 = if t > reserve {
            (t - reserve) as u64
        } else {
            0
        };
        Clock { time, ..*self }
    }

    /// The hard share of the clock with the increment added, at most the whole clock.
    pub fn cap_hard(&self, share: u64) -> (r: u64)
        ensures
            r == (if share + self.inc < self.time {
                share + self.inc
            } else {
                self.time as int
            }),
    {
        let sum: u64 = share.saturating_add(self.inc);
        if sum < self.time {
            sum
        } else {
            self.time
        }
    }
}

/// The limits that need no clock: none for an infinite or unclocked search, the given time
/// for a fixed time per move. `None` where the clock decides.
pub fn fixed_budget(limits: &Limits, stm: Color, overhead: u64) -> (r: Option<Budget>)
    ensures
        match r {
            Some(b) => {
                ||| limits.infinite && b.soft is None && b.hard is None
                ||| !limits.infinite && limits.movetime > 0 && b.soft == b.hard && b.hard == Some(
                    trimmed(limits.movetime as int, overhead as int) as u64,
                )
                ||| !limits.infinite && limits.movetime == 0 && unclocked(*limits, stm) && b.soft is None && b.hard is None
            },
            None => !limits.infinite && limits.movetime == 0 && !unclocked(*limits, stm),
        },
{
    if limits.infinite {
        return Some(Budget::unbounded());
    }
    if limits.movetime > 0 {
        let t: u64 = with_overhead(limits.movetime, overhead);
        return Some(Budget { soft: Some(t), hard: Some(t) });
    }
    if Clock::for_stm(limits, stm, 0).is_unclocked() {
        Some(Budget::unbounded())
    } else {
        None
    }
}

/// Whether side `stm` has neither time nor increment.
pub open spec fn unclocked(limits: Limits, stm: Color) -> bool {
    match stm {
        Color::White => limits.wtime == 0 && limits.winc == 0,
        Color::Black => limits.btime == 0 && limits.binc == 0,
    }
}

/// The limits from what the clock allows: the soft one never past the hard one.
pub fn clocked_budget(soft_ms: u64, hard_ms: u64, overhead: u64) -> (b: Budget)
    ensures
        b.hard == Some(trimmed(hard_ms as int, overhead as int) as u64),
        b.soft == Some(
            trimmed(if soft_ms < hard_ms {
                soft_ms as int
            } else {
                hard_ms as int
            }, overhead as int) as u64,
        ),
        b.soft->0 <= b.hard->0,
        hard_ms > overhead ==> b.hard->0 + overhead == hard_ms,
        overhead < soft_ms <= hard_ms ==> b.soft->0 + overhead == soft_ms,
{
    let soft: u64 = if soft_ms < hard_ms {
        soft_ms
    } else {
        hard_ms
    };
    Budget { soft: Some(with_overhead(soft, overhead)), hard: Some(with_overhead(hard_ms, overhead)) }
}

/// One completed iteration, as far as the clock cares.
#[derive(Clone, Copy, Debug, PartialEq, Eq, Structural)]
pub struct Iteration {
    pub depth: i32,
    pub best_move_changed: bool,
    pub root_moves: usize,
    pub best_nodes: u64,
    pub total_nodes: u64,
    pub score: i32,
    pub prev_score: i32,
}

impl Iteration {
    /// The share of the soft limit that the best move's share of the effort leaves, in
    /// percent: the more effort confirms one move, the less time it needs.
    pub open spec fn effort(self, sp: SearchParams) -> int {
        let total = if self.total_nodes > 1 {
            self.total_nodes as int
        } else {
            1
        };
        let left = sp.effort_base() - sp.effort_scale() * self.best_nodes / total;
        if left > sp.effort_floor() {
            left
        } else {
            sp.effort_floor() as int
        }
    }

    /// [`Iteration::effort`], once there has been enough effort to tell and there is a
    /// choice of moves.
    pub fn effort_percent(&self, sp: &SearchParams) -> (r: Option<u64>)
        requires
            sp.wf(),
        ensures
            r == (if self.depth >= sp.effort_depth() && self.root_moves > 1 {
                Some(self.effort(*sp) as u64)
            } else {
                None
            }),
            r matches Some(p) ==> p == self.effort(*sp),
    {
        if self.depth < sp.effort_depth() || self.root_moves <= 1 {
            return None;
        }
        let scale: u128 = sp.effort_scale() as u128;
        let best: u128 = self.best_nodes as u128;
        let total: u128 = if self.total_nodes > 1 {
            self.total_nodes as u128
        } else {
            1
        };
        proof {
            assert(0 <= scale * best <= 340 * 0xffff_ffff_ffff_ffff) by (nonlinear_arith)
                requires
                    0 <= scale <= 340,
                    0 <= best <= 0xffff_ffff_ffff_ffff,
            ;
        }
        let discount: u128 = scale * best / total;
        let base: u128 = sp.effort_base() as u128;
        let floor: u128 = sp.effort_floor() as u128;
        let left: u128 = if base > discount {
            base - discount
        } else {
            0
        };
        let p: u128 = if left > floor {
            left
        } else {
            floor
        };
        Some(p as u64)
    }
}

/// A soft limit that the clock sets never passes the hard limit.
pub proof fn law_soft_limits_come_first(soft_ms: int, hard_ms: int, overhead: int)
    requires
        soft_ms <= hard_ms,
    ensures
        trimmed(soft_ms, overhead) <= trimmed(hard_ms, overhead),
        1 <= trimmed(soft_ms, overhead),
{
}

/// What the overhead leaves of a time and the overhead make up that time; where the overhead
/// leaves nothing, a millisecond is left.
pub proof fn law_a_limit_and_the_overhead_make_up_the_time(ms: int, overhead: int)
    ensures
        ms > overhead ==> trimmed(ms, overhead) + overhead == ms,
        ms <= overhead ==> trimmed(ms, overhead) == 1,
        // A millisecond more on the clock is a millisecond more to think.
        ms > overhead ==> trimmed(ms + 1, overhead) == trimmed(ms, overhead) + 1,
{
}

/// A fixed time per move is spent but for the overhead, and limits both iterations and the
/// search: `b` is what [`fixed_budget`] gives.
pub proof fn law_a_fixed_time_is_spent_but_for_the_overhead(movetime: u64, overhead: u64, b: Budget)
    requires
        b.soft == b.hard,
        b.hard == Some(trimmed(movetime as int, overhead as int) as u64),
    ensures
        movetime > overhead ==> b.hard->0 + overhead == movetime && b.soft->0 + overhead == movetime,
        movetime <= overhead ==> b.hard->0 == 1 && b.soft->0 == 1,
{
}

/// What the clock allows is spent but for the overhead: `b` is what [`clocked_budget`] gives.
pub proof fn law_the_share_of_a_clock_is_spent_but_for_the_overhead(soft_ms: u64, hard_ms: u64, overhead: u64, b: Budget)
    requires
        b.hard == Some(trimmed(hard_ms as int, overhead as int) as u64),
        b.soft == Some(
            trimmed(if soft_ms < hard_ms {
                soft_ms as int
            } else {
                hard_ms as int
            }, overhead as int) as u64,
        ),
    ensures
        hard_ms > overhead ==> b.hard->0 + overhead == hard_ms,
        overhead < soft_ms <= hard_ms ==> b.soft->0 + overhead == soft_ms,
        soft_ms >= hard_ms ==> b.soft == b.hard,
        b.soft->0 >= 1 && b.hard->0 >= 1,
{
}

/// Setting the overhead of the moves to come aside and spending the rest uses up the clock:
/// nothing is set aside where the moves to come are not counted.
pub proof fn law_what_is_set_aside_and_the_rest_make_up_the_clock(c: Clock, overhead: int)
    requires
        overhead >= 0,
    ensures
        c.movestogo == 0 ==> c.spare(overhead) == c.time,
        c.movestogo > 0 && c.time >= overhead * (c.movestogo + 1) ==> c.spare(overhead) + overhead * c.movestogo + overhead
            == c.time,
        c.movestogo > 0 && c.time <= overhead * (c.movestogo + 1) ==> c.spare(overhead) == 0,
        0 <= c.spare(overhead) <= c.time,
{
    let n = c.movestogo as int;
    assert(overhead * (n + 1) == overhead * n + overhead && overhead * (n + 1) >= 0) by (nonlinear_arith)
        requires
            overhead >= 0,
            n >= 0,
    ;
}

/// A move that took all the effort gets the least time, and one that took none the most; between
/// them more effort never gets more time.
pub proof fn law_a_confirmed_move_needs_less_time(a: Iteration, b: Iteration, sp: SearchParams)
    requires
        sp.wf(),
        a.total_nodes == b.total_nodes,
        a.best_nodes <= b.best_nodes,
    ensures
        b.effort(sp) <= a.effort(sp),
        sp.effort_floor() <= b.effort(sp),
        a.best_nodes == 0 && sp.effort_base() >= sp.effort_floor() ==> a.effort(sp) == sp.effort_base(),
        a.total_nodes > 0 && a.best_nodes == a.total_nodes ==> a.effort(sp) == (if sp.effort_base() - sp.effort_scale()
            > sp.effort_floor() {
            sp.effort_base() - sp.effort_scale()
        } else {
            sp.effort_floor() as int
        }),
{
    let total: int = if a.total_nodes > 1 {
        a.total_nodes as int
    } else {
        1
    };
    let k = sp.effort_scale() as int;
    let x = a.best_nodes as int;
    let y = b.best_nodes as int;
    assert(k * x <= k * y) by (nonlinear_arith)
        requires
            0 <= k,
            x <= y,
    ;
    assert(k * x / total <= k * y / total) by (nonlinear_arith)
        requires
            k * x <= k * y,
            total >= 1,
    ;
    assert(k * 0 == 0);
    assert(0int / total == 0) by (nonlinear_arith)
        requires
            total >= 1,
    ;
    if a.total_nodes > 0 && a.best_nodes == a.total_nodes {
        assert(k * total / total == k) by (nonlinear_arith)
            requires
                total >= 1,
        ;
    }
}

/// A side's clock is its own: the other side's time and increment do not give it one, and either
/// its time or its increment does.
pub proof fn law_a_clock_is_its_sides_own(limits: Limits, w: u64, b: u64)
    ensures
        unclocked(limits, Color::White) == unclocked(Limits { btime: b, binc: w, ..limits }, Color::White),
        unclocked(limits, Color::Black) == unclocked(Limits { wtime: w, winc: b, ..limits }, Color::Black),
        limits.wtime > 0 || limits.winc > 0 ==> !unclocked(limits, Color::White),
        limits.btime > 0 || limits.binc > 0 ==> !unclocked(limits, Color::Black),
        unclocked(Limits { wtime: 0, winc: 0, ..limits }, Color::White),
        unclocked(Limits { btime: 0, binc: 0, ..limits }, Color::Black),
{
}

} // verus!
