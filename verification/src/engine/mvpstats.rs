//! Diagnostics of move ordering: how many of the sorted quiet moves are used, and on which
//! move and through which heuristic cutoffs come.

use vstd::prelude::*;

verus! {

/// Nodes by quiet moves used; the last bucket takes the rest.
pub const QUIET_BUCKETS: usize = 12;

/// Cutoffs by move number; the last bucket takes the rest.
pub const CUTOFF_BUCKETS: usize = 8;

/// The heuristic that brought up the cutoff move.
#[derive(Clone, Copy, Debug, PartialEq, Eq, Structural)]
pub enum CutoffKind {
    Hash,
    Capture,
    Killer,
    Quiet,
}

impl CutoffKind {
    pub open spec fn index(self) -> int {
        match self {
            CutoffKind::Hash => 0,
            CutoffKind::Capture => 1,
            CutoffKind::Killer => 2,
            CutoffKind::Quiet => 3,
        }
    }

    fn idx(self) -> (i: usize)
        ensures
            i == self.index(),
            i < 4,
    {
        match self {
            CutoffKind::Hash => 0,
            CutoffKind::Capture => 1,
            CutoffKind::Killer => 2,
            CutoffKind::Quiet => 3,
        }
    }
}

/// The counts.
#[derive(Clone, Copy, Debug)]
pub struct PickerStats {
    pub quiet_hist: [u64; 12],
    pub quiet_generated: u64,
    pub quiet_consumed: u64,
    pub quiet_nodes: u64,
    pub cutoff_hist: [u64; 8],
    pub cutoff_kind: [u64; 4],
    pub cutoff_nodes: u64,
}

/// `x + y`, starting over past the greatest count.
pub open spec fn wrapped(x: u64, y: int) -> u64 {
    if x + y > u64::MAX {
        (x + y - 0x1_0000_0000_0000_0000) as u64
    } else {
        (x + y) as u64
    }
}

/// The bucket of `n` out of `buckets`.
pub open spec fn bucket(n: int, buckets: int) -> int {
    if n < buckets {
        n
    } else {
        buckets - 1
    }
}

impl PickerStats {
    /// Nothing counted yet.
    pub fn new() -> (s: PickerStats)
        ensures
            forall|i: int| 0 <= i < 12 ==> #[trigger] s.quiet_hist[i] == 0,
            forall|i: int| 0 <= i < 8 ==> #[trigger] s.cutoff_hist[i] == 0,
            forall|i: int| 0 <= i < 4 ==> #[trigger] s.cutoff_kind[i] == 0,
            s.quiet_generated == 0 && s.quiet_consumed == 0 && s.quiet_nodes == 0 && s.cutoff_nodes == 0,
    {
        PickerStats {
            quiet_hist: [0; 12],
            quiet_generated: 0,
            quiet_consumed: 0,
            quiet_nodes: 0,
            cutoff_hist: [0; 8],
            cutoff_kind: [0; 4],
            cutoff_nodes: 0,
        }
    }
}

/// Counts a node that sorted `generated` quiet moves and used `consumed` of them.
pub fn record_quiets(stats: &mut PickerStats, generated: u32, consumed: u32)
    ensures
        ({
            let b = bucket(consumed as int, 12);
            final(stats).quiet_hist@ == old(stats).quiet_hist@.update(b, wrapped(old(stats).quiet_hist[b], 1))
        }),
        final(stats).quiet_generated == wrapped(old(stats).quiet_generated, generated as int),
        final(stats).quiet_consumed == wrapped(old(stats).quiet_consumed, consumed as int),
        final(stats).quiet_nodes == wrapped(old(stats).quiet_nodes, 1),
        final(stats).cutoff_hist == old(stats).cutoff_hist,
        final(stats).cutoff_kind == old(stats).cutoff_kind,
        final(stats).cutoff_nodes == old(stats).cutoff_nodes,
{
    let b: usize = if (consumed as usize) < QUIET_BUCKETS {
        consumed as usize
    } else {
        QUIET_BUCKETS - 1
    };
    let n: u64 = stats.quiet_hist[b].wrapping_add(1);
    stats.quiet_hist[b] = n;
    stats.quiet_generated = stats.quiet_generated.wrapping_add(generated as u64);
    stats.quiet_consumed = stats.quiet_consumed.wrapping_add(consumed as u64);
    stats.quiet_nodes = stats.quiet_nodes.wrapping_add(1);
}

/// Counts a cutoff on the `index`-th searched move, the first being number one.
pub fn record_cutoff(stats: &mut PickerStats, index: u32, kind: CutoffKind)
    ensures
        ({
            let b = bucket(
                if index == 0 {
                    0
                } else {
                    index - 1
                },
                8,
            );
            final(stats).cutoff_hist@ == old(stats).cutoff_hist@.update(b, wrapped(old(stats).cutoff_hist[b], 1))
        }),
        final(stats).cutoff_kind@ == old(stats).cutoff_kind@.update(
            kind.index(),
            wrapped(old(stats).cutoff_kind[kind.index()], 1),
        ),
        final(stats).cutoff_nodes == wrapped(old(stats).cutoff_nodes, 1),
        final(stats).quiet_hist == old(stats).quiet_hist,
        final(stats).quiet_generated == old(stats).quiet_generated,
        final(stats).quiet_consumed == old(stats).quiet_consumed,
        final(stats).quiet_nodes == old(stats).quiet_nodes,
{
    let at: usize = if index == 0 {
        0
    } else {
        (index - 1) as usize
    };
    let b: usize = if at < CUTOFF_BUCKETS {
        at
    } else {
        CUTOFF_BUCKETS - 1
    };
    let n: u64 = stats.cutoff_hist[b].wrapping_add(1);
    stats.cutoff_hist[b] = n;
    let k: usize = kind.idx();
    let m: u64 = stats.cutoff_kind[k].wrapping_add(1);
    stats.cutoff_kind[k] = m;
    stats.cutoff_nodes = stats.cutoff_nodes.wrapping_add(1);
}

/// One bucket of a distribution.
#[derive(Clone, Copy, Debug, PartialEq, Eq, Structural)]
pub struct Row {
    /// What the bucket counts.
    pub label: usize,
    /// Whether it takes all that is beyond, too.
    pub and_more: bool,
    pub count: u64,
    /// The count of this bucket and those before.
    pub cumulative: u64,
}

/// The sum of the first `n` counts.
pub open spec fn cumulated(counts: Seq<u64>, n: nat) -> u64
    decreases n,
{
    if n == 0 {
        0
    } else {
        wrapped(cumulated(counts, (n - 1) as nat), counts[n - 1] as int)
    }
}

/// The rows of a distribution whose first bucket counts `base`.
pub open spec fn tabled(rows: Seq<Row>, counts: Seq<u64>, base: int) -> bool {
    &&& rows.len() == counts.len()
    &&& forall|i: int|
        0 <= i < rows.len() ==> {
            &&& (#[trigger] rows[i]).label == base + i
            &&& rows[i].and_more == (i == counts.len() - 1)
            &&& rows[i].count == counts[i]
            &&& rows[i].cumulative == cumulated(counts, (i + 1) as nat)
        }
}

/// What the counts come to. A part without nodes has nothing to say.
pub struct Summary {
    pub quiets: Option<Vec<Row>>,
    pub cutoffs: Option<Vec<Row>>,
}

fn tabulate(counts: &[u64], base: usize) -> (rows: Vec<Row>)
    requires
        counts@.len() <= 1000,
        base <= 1000,
    ensures
        tabled(rows@, counts@, base as int),
{
    let n: usize = counts.len();
    let mut rows: Vec<Row> = Vec::new();
    let mut sum: u64 = 0;
    let mut i: usize = 0;
    while i < n
        invariant
            i <= n <= 1000,
            base <= 1000,
            n == counts@.len(),
            rows@.len() == i,
            sum == cumulated(counts@, i as nat),
            forall|j: int|
                0 <= j < i ==> {
                    &&& (#[trigger] rows@[j]).label == base + j
                    &&& rows@[j].and_more == (j == n - 1)
                    &&& rows@[j].count == counts@[j]
                    &&& rows@[j].cumulative == cumulated(counts@, (j + 1) as nat)
                },
        decreases n - i,
    {
        sum = sum.wrapping_add(counts[i]);
        rows.push(Row { label: base + i, and_more: i == n - 1, count: counts[i], cumulative: sum });
        i = i + 1;
    }
    rows
}

/// The distributions that the counts make up.
pub fn report(stats: &PickerStats) -> (r: Summary)
    ensures
        match r.quiets {
            Some(rows) => stats.quiet_nodes > 0 && tabled(rows@, stats.quiet_hist@, 0),
            None => stats.quiet_nodes == 0,
        },
        match r.cutoffs {
            Some(rows) => stats.cutoff_nodes > 0 && tabled(rows@, stats.cutoff_hist@, 1),
            None => stats.cutoff_nodes == 0,
        },
{
    let quiets = if stats.quiet_nodes == 0 {
        None
    } else {
        Some(tabulate(&stats.quiet_hist, 0))
    };
    let cutoffs = if stats.cutoff_nodes == 0 {
        None
    } else {
        Some(tabulate(&stats.cutoff_hist, 1))
    };
    Summary { quiets, cutoffs }
}

/// A count that is too large falls into the last bucket, and any other into its own.
pub proof fn law_every_count_has_a_bucket(n: int, buckets: int)
    requires
        n >= 0,
        buckets > 0,
    ensures
        0 <= bucket(n, buckets) < buckets,
        n < buckets ==> bucket(n, buckets) == n,
        n >= buckets ==> bucket(n, buckets) == buckets - 1,
{
}

/// Counters add up, and start over where they overflow.
pub proof fn law_counters_add_up(x: u64, y: u64)
    ensures
        x + y <= u64::MAX ==> wrapped(x, y as int) == x + y,
        x + y > u64::MAX ==> wrapped(x, y as int) + u64::MAX + 1 == x + y,
        wrapped(x, y as int) == wrapped(y, x as int),
{
}

/// The kinds of cutoffs are counted apart.
pub proof fn law_cutoffs_are_counted_apart(a: CutoffKind, b: CutoffKind)
    ensures
        a.index() == b.index() <==> a == b,
        0 <= a.index() < 4,
{
}

/// The last row of a distribution has come to everything that was counted, each row to its own
/// count more than the one before.
pub proof fn law_rows_add_up(rows: Seq<Row>, counts: Seq<u64>, base: int, i: int)
    requires
        tabled(rows, counts, base),
        0 <= i < rows.len(),
    ensures
        i == 0 ==> rows[0].cumulative == counts[0],
        i > 0 ==> rows[i].cumulative == wrapped(rows[i - 1].cumulative, counts[i] as int),
        i > 0 ==> rows[i].label == rows[i - 1].label + 1,
        rows[i].and_more <==> i == rows.len() - 1,
{
    reveal_with_fuel(cumulated, 2);
    if i > 0 {
        assert(rows[i - 1].cumulative == cumulated(counts, i as nat));
    }
}

} // verus!
