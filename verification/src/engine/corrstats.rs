//! Diagnostics of the correction tables: how often they are read and trained, how often a
//! read finds something, how large it is and how often it sits at its limit.

use vstd::prelude::*;

use crate::engine::history::{CORRECTION_LIMIT, CORRECTION_WEIGHT_SCALE};
use crate::engine::search_params::SearchParams;

verus! {

/// The tables.
#[derive(Clone, Copy, Debug, PartialEq, Eq, Structural)]
pub enum Table {
    Pawn,
    Minor,
    Major,
}

/// What is counted of one table.
#[derive(Clone, Copy, Debug, PartialEq, Eq, Structural)]
pub struct Counters {
    pub reads: u64,
    pub hits: u64,
    /// The sum of the sizes of all corrections found.
    pub abs_sum: u64,
    /// Corrections found at the limit.
    pub saturated: u64,
    pub updates: u64,
}

/// `x + y`, starting over past the greatest count.
pub open spec fn wrapped(x: u64, y: int) -> u64 {
    if x + y > u64::MAX {
        (x + y - 0x1_0000_0000_0000_0000) as u64
    } else {
        (x + y) as u64
    }
}

impl Counters {
    /// The counters after a read that found `value`.
    pub open spec fn read(self, value: int) -> Counters {
        if value == 0 {
            Counters { reads: wrapped(self.reads, 1), ..self }
        } else {
            Counters {
                reads: wrapped(self.reads, 1),
                hits: wrapped(self.hits, 1),
                abs_sum: wrapped(self.abs_sum, vstd::math::abs(value) as int),
                saturated: if vstd::math::abs(value) >= CORRECTION_LIMIT {
                    wrapped(self.saturated, 1)
                } else {
                    self.saturated
                },
                ..self
            }
        }
    }

    fn new() -> (c: Counters)
        ensures
            c == (Counters { reads: 0, hits: 0, abs_sum: 0, saturated: 0, updates: 0 }),
    {
        Counters { reads: 0, hits: 0, abs_sum: 0, saturated: 0, updates: 0 }
    }

    fn count_read(&mut self, value: i32)
        ensures
            *final(self) == old(self).read(value as int),
    {
        self.reads = self.reads.wrapping_add(1);
        if value != 0 {
            let size: u64 = if value < 0 {
                (-(value as i64)) as u64
            } else {
                value as u64
            };
            self.hits = self.hits.wrapping_add(1);
            self.abs_sum = self.abs_sum.wrapping_add(size);
            if size >= CORRECTION_LIMIT as u64 {
                self.saturated = self.saturated.wrapping_add(1);
            }
        }
    }
}

/// The counters of the three tables.
#[derive(Clone, Copy, Debug, PartialEq, Eq, Structural)]
pub struct CorrStats {
    pub pawn: Counters,
    pub minor: Counters,
    pub major: Counters,
}

impl CorrStats {
    /// The counters of a table.
    pub open spec fn of(self, table: Table) -> Counters {
        match table {
            Table::Pawn => self.pawn,
            Table::Minor => self.minor,
            Table::Major => self.major,
        }
    }

    /// Nothing counted yet.
    pub fn new() -> (s: CorrStats)
        ensures
            forall|t: Table| #[trigger]
                s.of(t) == (Counters { reads: 0, hits: 0, abs_sum: 0, saturated: 0, updates: 0 }),
    {
        CorrStats { pawn: Counters::new(), minor: Counters::new(), major: Counters::new() }
    }
}

/// Counts a read of `table` that found `value`.
pub fn record_read(stats: &mut CorrStats, table: Table, value: i32)
    ensures
        final(stats).of(table) == old(stats).of(table).read(value as int),
        forall|t: Table| t != table ==> #[trigger] final(stats).of(t) == old(stats).of(t),
{
    match table {
        Table::Pawn => stats.pawn.count_read(value),
        Table::Minor => stats.minor.count_read(value),
        Table::Major => stats.major.count_read(value),
    }
}

/// Counts an update of `table`.
pub fn record_update(stats: &mut CorrStats, table: Table)
    ensures
        final(stats).of(table) == (Counters {
            updates: wrapped(old(stats).of(table).updates, 1),
            ..old(stats).of(table)
        }),
        forall|t: Table| t != table ==> #[trigger] final(stats).of(t) == old(stats).of(t),
{
    match table {
        Table::Pawn => {
            stats.pawn.updates = stats.pawn.updates.wrapping_add(1);
        },
        Table::Minor => {
            stats.minor.updates = stats.minor.updates.wrapping_add(1);
        },
        Table::Major => {
            stats.major.updates = stats.major.updates.wrapping_add(1);
        },
    }
}

/// The weight that each table's correction enters with, over [`CORRECTION_WEIGHT_SCALE`]:
/// that of the pawn table is not scaled.
pub fn weights(sp: &SearchParams) -> (w: [i32; 3])
    requires
        sp.wf(),
    ensures
        w@ == seq![CORRECTION_WEIGHT_SCALE, sp.minor_corr_weight(), sp.major_corr_weight()],
{
    let w: [i32; 3] = [CORRECTION_WEIGHT_SCALE, sp.minor_corr_weight(), sp.major_corr_weight()];
    assert(w@ =~= seq![CORRECTION_WEIGHT_SCALE, sp.minor_corr_weight(), sp.major_corr_weight()]);
    w
}

/// Every read is counted, a hit where it found something, and its size added up either way it
/// pointed; a value at the limit counts as saturated.
pub proof fn law_reads_are_counted(c: Counters, v: int)
    requires
        -CORRECTION_LIMIT <= v <= CORRECTION_LIMIT,
        c.reads < u64::MAX && c.hits < u64::MAX && c.saturated < u64::MAX && c.abs_sum < u64::MAX - CORRECTION_LIMIT,
    ensures
        c.read(v).reads == c.reads + 1,
        c.read(v).hits == c.hits + (if v == 0 {
            0int
        } else {
            1
        }),
        v >= 0 ==> c.read(v).abs_sum == c.abs_sum + v,
        c.read(-v).abs_sum == c.read(v).abs_sum,
        v == CORRECTION_LIMIT || v == -CORRECTION_LIMIT ==> c.read(v).saturated == c.saturated + 1,
        -CORRECTION_LIMIT < v < CORRECTION_LIMIT ==> c.read(v).saturated == c.saturated,
        c.read(v).updates == c.updates,
{
}

} // verus!
