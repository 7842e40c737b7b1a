//! Transposition table: the search's memory of positions it has already seen.
//!
//! A sixteen-bit key guards each entry. About one collision in 2^16 slips through and hands
//! back a move of another position, which is why a stored move is held against the board
//! before it is used. Entries sit in clusters of three, so replacement has a choice.

use vstd::prelude::*;

use crate::chess::defs::{self, score_from_tt, score_to_tt, MAX_PLY, SCORE_NONE};
use crate::chess::legal;
use crate::chess::moves::Move;
use crate::chess::position::Position;
use crate::engine::movegen::is_pseudo_legal;

verus! {

/// What a stored score proves.
#[derive(Clone, Copy, Debug, PartialEq, Eq, Structural)]
pub enum Bound {
    /// Nothing is stored.
    Empty,
    Exact,
    /// The score is at least this.
    Lower,
    /// The score is at most this.
    Upper,
}

impl Bound {
    /// The two bits a slot keeps of a bound.
    pub open spec fn code(self) -> int {
        match self {
            Bound::Empty => 0,
            Bound::Exact => 1,
            Bound::Lower => 2,
            Bound::Upper => 3,
        }
    }

    /// The bound two bits stand for.
    pub open spec fn decoded(bits: int) -> Bound {
        if bits % 4 == 0 {
            Bound::Empty
        } else if bits % 4 == 1 {
            Bound::Exact
        } else if bits % 4 == 2 {
            Bound::Lower
        } else {
            Bound::Upper
        }
    }

    fn bits(self) -> (b: u16)
        ensures
            b == self.code(),
            b < 4,
    {
        match self {
            Bound::Empty => 0,
            Bound::Exact => 1,
            Bound::Lower => 2,
            Bound::Upper => 3,
        }
    }

    fn from_bits(bits: u16) -> (b: Bound)
        ensures
            b == Bound::decoded(bits as int),
    {
        let x: u16 = bits % 4;
        if x == 0 {
            Bound::Empty
        } else if x == 1 {
            Bound::Exact
        } else if x == 2 {
            Bound::Lower
        } else {
            Bound::Upper
        }
    }

    /// What a bound adds to an entry's standing.
    pub open spec fn bonus(self) -> int {
        match self {
            Bound::Exact => 3,
            Bound::Lower => 2,
            Bound::Upper => 1,
            Bound::Empty => 0,
        }
    }
}

/// Whether a score with this bound settles the window from `alpha` to `beta`.
pub open spec fn settles(bound: Bound, score: int, alpha: int, beta: int) -> bool {
    match bound {
        Bound::Exact => true,
        Bound::Lower => score >= beta,
        Bound::Upper => score <= alpha,
        Bound::Empty => false,
    }
}

/// Whether a score with this bound settles the window from `alpha` to `beta`.
pub fn can_cutoff(bound: Bound, score: i32, alpha: i32, beta: i32) -> (r: bool)
    ensures
        r == settles(bound, score as int, alpha as int, beta as int),
{
    match bound {
        Bound::Exact => true,
        Bound::Lower => score >= beta,
        Bound::Upper => score <= alpha,
        Bound::Empty => false,
    }
}

/// The static evaluation moved into the range a searched score proves.
pub fn clamp_to_bound(bound: Bound, score: i32, eval: i32) -> (r: i32)
    ensures
        r == (match bound {
            Bound::Exact => score,
            Bound::Lower => if eval < score {
                score
            } else {
                eval
            },
            Bound::Upper => if eval > score {
                score
            } else {
                eval
            },
            Bound::Empty => eval,
        }),
{
    match bound {
        Bound::Exact => score,
        Bound::Lower => if eval < score {
            score
        } else {
            eval
        },
        Bound::Upper => if eval > score {
            score
        } else {
            eval
        },
        Bound::Empty => eval,
    }
}

/// One slot. `packed` holds depth (8 bits), bound (2), principal variation (1) and age (5).
#[derive(Clone, Copy, Debug, PartialEq, Eq, Structural)]
pub struct TtEntry {
    pub key: u16,
    pub mv: u16,
    pub score: i16,
    pub eval: i16,
    pub packed: u16,
}

impl TtEntry {
    pub open spec fn depth(self) -> int {
        self.packed as int % 256
    }

    pub open spec fn bound(self) -> Bound {
        Bound::decoded(self.packed as int / 256)
    }

    pub open spec fn pv(self) -> bool {
        (self.packed as int / 1024) % 2 == 1
    }

    pub open spec fn age(self) -> int {
        self.packed as int / 2048
    }

    /// How many generations ago the entry was written, as far as five bits tell.
    pub open spec fn staleness(self, age: int) -> int {
        (age - self.age()) % 32
    }

    /// How much an entry is worth keeping: depth, bound and variation, less its age.
    pub open spec fn quality(self, age: int) -> int {
        self.depth() + self.bound().bonus() + (if self.pv() {
            1int
        } else {
            0
        }) - (self.staleness(age) * self.staleness(age)) / 4
    }

    /// Whether the entry, of the same position, outranks a new one.
    pub open spec fn outranks(self, depth: int, pv: bool, bound: Bound, age: int) -> bool {
        let fresh = depth + bound.bonus() + (self.staleness(age) * self.staleness(age)) / 4 + (if pv {
            1int
        } else {
            0
        });
        &&& !(bound == Bound::Exact && self.bound() != Bound::Exact)
        &&& fresh * 3 < (self.depth() + self.bound().bonus()) * 2
    }
}

fn packed_depth(packed: u16) -> (d: i32)
    ensures
        d == packed as int % 256,
{
    (packed % 256) as i32
}

fn packed_bound(packed: u16) -> (b: Bound)
    ensures
        b == Bound::decoded(packed as int / 256),
{
    Bound::from_bits(packed / 256)
}

fn packed_pv(packed: u16) -> (b: bool)
    ensures
        b == ((packed as int / 1024) % 2 == 1),
{
    (packed / 1024) % 2 == 1
}

fn packed_age(packed: u16) -> (a: u8)
    ensures
        a == packed as int / 2048,
        a < 32,
{
    (packed / 2048) as u8
}

/// Packs depth, bound, variation and age.
fn pack(depth: u8, bound: Bound, pv: bool, age: u8) -> (p: u16)
    requires
        age < 32,
    ensures
        p as int % 256 == depth,
        Bound::decoded(p as int / 256) == bound,
        ((p as int / 1024) % 2 == 1) == pv,
        p as int / 2048 == age,
{
    let v: u16 = if pv {
        1
    } else {
        0
    };
    depth as u16 + bound.bits() * 256 + v * 1024 + age as u16 * 2048
}

fn flag_bonus(bound: Bound) -> (b: i32)
    ensures
        b == bound.bonus(),
        0 <= b <= 3,
{
    match bound {
        Bound::Exact => 3,
        Bound::Lower => 2,
        Bound::Upper => 1,
        Bound::Empty => 0,
    }
}

/// The generations between two ages.
fn age_gap(now: u8, then: u8) -> (d: i32)
    requires
        now < 32,
        then < 32,
    ensures
        d == (now - then) % 32,
        0 <= d < 32,
{
    if now >= then {
        (now - then) as i32
    } else {
        (now + 32 - then) as i32
    }
}

/// Whether the stored entry outranks the new one.
fn stored_outranks(slot: &TtEntry, depth: i32, pv: bool, bound: Bound, cur_age: u8) -> (r: bool)
    requires
        cur_age < 32,
    ensures
        r == slot.outranks(depth as int, pv, bound, cur_age as int),
{
    let packed: u16 = slot.packed;
    if bound == Bound::Exact && packed_bound(packed) != Bound::Exact {
        return false;
    }
    let gap: i32 = age_gap(cur_age, packed_age(packed));
    assert(0 <= gap * gap <= 961) by (nonlinear_arith)
        requires
            0 <= gap <= 31,
    ;
    let credit: i32 = flag_bonus(bound) + (gap * gap) / 4 + (if pv {
        1
    } else {
        0
    });
    let fresh: i64 = depth as i64 + credit as i64;
    let kept: i32 = packed_depth(packed) + flag_bonus(packed_bound(packed));
    fresh * 3 < kept as i64 * 2
}

/// How much an entry is worth keeping.
fn replacement_quality(slot: &TtEntry, cur_age: u8) -> (q: i32)
    requires
        cur_age < 32,
    ensures
        q == slot.quality(cur_age as int),
        -1000 <= q <= 1000,
{
    let packed: u16 = slot.packed;
    let gap: i32 = age_gap(cur_age, packed_age(packed));
    assert(0 <= gap * gap <= 961) by (nonlinear_arith)
        requires
            0 <= gap <= 31,
    ;
    let bonus: i32 = flag_bonus(packed_bound(packed)) + (if packed_pv(packed) {
        1
    } else {
        0
    });
    packed_depth(packed) + bonus - (gap * gap) / 4
}

/// Three slots.
#[derive(Clone, Copy, Debug, PartialEq, Eq, Structural)]
pub struct Cluster {
    pub a: TtEntry,
    pub b: TtEntry,
    pub c: TtEntry,
}

impl Cluster {
    /// Slot number `i`.
    pub open spec fn slot(self, i: int) -> TtEntry {
        if i == 0 {
            self.a
        } else if i == 1 {
            self.b
        } else {
            self.c
        }
    }

    /// The cluster with slot `i` replaced.
    pub open spec fn with(self, i: int, e: TtEntry) -> Cluster {
        if i == 0 {
            Cluster { a: e, ..self }
        } else if i == 1 {
            Cluster { b: e, ..self }
        } else {
            Cluster { c: e, ..self }
        }
    }

    /// Slots that hold nothing are blank.
    pub open spec fn tidy(self) -> bool {
        &&& self.a.bound() == Bound::Empty ==> self.a.packed == 0
        &&& self.b.bound() == Bound::Empty ==> self.b.packed == 0
        &&& self.c.bound() == Bound::Empty ==> self.c.packed == 0
    }

    /// The first slot that holds something under `key`.
    pub open spec fn hit(self, key: u16) -> Option<int> {
        if self.a.key == key && self.a.bound() != Bound::Empty {
            Some(0)
        } else if self.b.key == key && self.b.bound() != Bound::Empty {
            Some(1)
        } else if self.c.key == key && self.c.bound() != Bound::Empty {
            Some(2)
        } else {
            None
        }
    }

    /// Whether a search result under `key` goes into this slot without further ado.
    pub open spec fn free_for(e: TtEntry, key: u16, shallow_too: bool) -> bool {
        e.bound() == Bound::Empty || e.key == key || (shallow_too && e.depth() == 0)
    }

    /// The slot a search result under `key` goes into: the first free one, else the first
    /// of those least worth keeping.
    pub open spec fn victim(self, key: u16, age: int) -> int {
        if Cluster::free_for(self.a, key, false) {
            0
        } else if Cluster::free_for(self.b, key, false) {
            1
        } else if Cluster::free_for(self.c, key, false) {
            2
        } else if self.a.quality(age) <= self.b.quality(age) && self.a.quality(age) <= self.c.quality(age) {
            0
        } else if self.b.quality(age) <= self.c.quality(age) {
            1
        } else {
            2
        }
    }

    /// The slot a quiescence result under `key` goes into: the first free or shallow one,
    /// else the first of those least worth keeping that are worth nothing, else none.
    pub open spec fn timid_victim(self, key: u16, age: int) -> Option<int> {
        if Cluster::free_for(self.a, key, true) {
            Some(0)
        } else if Cluster::free_for(self.b, key, true) {
            Some(1)
        } else if Cluster::free_for(self.c, key, true) {
            Some(2)
        } else if self.a.quality(age) <= 0 && self.a.quality(age) <= self.b.quality(age) && self.a.quality(age)
            <= self.c.quality(age) {
            Some(0)
        } else if self.b.quality(age) <= 0 && self.b.quality(age) <= self.c.quality(age) {
            Some(1)
        } else if self.c.quality(age) <= 0 {
            Some(2)
        } else {
            None
        }
    }

    fn get(&self, i: usize) -> (e: TtEntry)
        requires
            i < 3,
        ensures
            e == self.slot(i as int),
    {
        if i == 0 {
            self.a
        } else if i == 1 {
            self.b
        } else {
            self.c
        }
    }

    fn put(&mut self, i: usize, e: TtEntry)
        requires
            i < 3,
        ensures
            *final(self) == old(self).with(i as int, e),
    {
        if i == 0 {
            self.a = e;
        } else if i == 1 {
            self.b = e;
        } else {
            self.c = e;
        }
    }
}

/// An empty slot.
pub open spec fn vacant() -> TtEntry {
    TtEntry { key: 0, mv: 0, score: 0, eval: 0, packed: 0 }
}

/// A stored move held against the board.
#[derive(Clone, Copy, Debug, PartialEq, Eq, Structural)]
pub enum TtMove {
    /// A fail-low store leaves no move behind.
    Null,
    Found(Move),
    /// Garbage under a matching key, so the slot's score proves nothing either.
    Collision,
}

impl TtMove {
    /// The move, if there is one.
    pub fn get(self) -> (m: Option<Move>)
        ensures
            m == (match self {
                TtMove::Found(mv) => Some(mv),
                TtMove::Null | TtMove::Collision => None,
            }),
    {
        match self {
            TtMove::Found(mv) => Some(mv),
            TtMove::Null | TtMove::Collision => None,
        }
    }
}

/// What a probe hands back, in search units.
#[derive(Clone, Copy, Debug, PartialEq, Eq, Structural)]
pub struct TtData {
    pub raw_mv: Move,
    pub pv: bool,
    /// The static evaluation when stored, `SCORE_NONE` in check.
    pub eval: i32,
    pub score: i32,
    pub bound: Bound,
    pub depth: i32,
}

impl TtData {
    /// No slot matched.
    pub open spec fn absent() -> TtData {
        TtData { raw_mv: Move(0), pv: false, eval: SCORE_NONE, score: SCORE_NONE, bound: Bound::Empty, depth: 0 }
    }

    /// What entry `e` says at `ply`.
    pub open spec fn of(e: TtEntry, ply: int) -> TtData {
        TtData {
            raw_mv: Move(e.mv),
            pv: e.pv(),
            eval: e.eval as i32,
            score: defs::from_table(e.score as int, ply) as i32,
            bound: e.bound(),
            depth: e.depth() as i32,
        }
    }

    /// The stored move, held against the board.
    pub fn mv(&self, pos: &Position) -> (m: TtMove)
        requires
            pos.wf(),
        ensures
            m == (if self.raw_mv.0 == 0 {
                TtMove::Null
            } else if legal::pseudo_legal(*pos, self.raw_mv) {
                TtMove::Found(self.raw_mv)
            } else {
                TtMove::Collision
            }),
    {
        if self.raw_mv.is_null() {
            TtMove::Null
        } else if is_pseudo_legal(pos, self.raw_mv) {
            TtMove::Found(self.raw_mv)
        } else {
            TtMove::Collision
        }
    }
}

/// The key that guards an entry.
pub open spec fn verification(hash: u64) -> u16 {
    (hash % 65536) as u16
}

fn verification_key(hash: u64) -> (k: u16)
    ensures
        k == verification(hash),
{
    (hash % 65536) as u16
}

/// `x` moved into sixteen bits.
pub open spec fn narrowed(x: int) -> int {
    if x < -32768 {
        -32768
    } else if x > 32767 {
        32767
    } else {
        x
    }
}

fn narrow(x: i32) -> (r: i16)
    ensures
        r == narrowed(x as int),
{
    if x < -32768 {
        -32768
    } else if x > 32767 {
        32767
    } else {
        x as i16
    }
}

/// A depth moved into eight bits.
pub open spec fn shortened(depth: int) -> int {
    if depth < 0 {
        0
    } else if depth > 255 {
        255
    } else {
        depth
    }
}

/// What a search result becomes in a slot.
pub open spec fn written(
    e: TtEntry,
    key: u16,
    mv: u16,
    score: int,
    eval: int,
    depth: int,
    bound: Bound,
    pv: bool,
    age: int,
) -> bool {
    &&& e.key == key
    &&& e.mv == mv
    &&& e.score == score
    &&& e.eval == narrowed(eval)
    &&& e.depth() == shortened(depth)
    &&& e.bound() == bound
    &&& e.pv() == pv
    &&& e.age() == age
}

fn write(key: u16, mv: u16, score: i16, eval: i32, depth: i32, bound: Bound, pv: bool, age: u8) -> (e: TtEntry)
    requires
        age < 32,
    ensures
        written(e, key, mv, score as int, eval as int, depth as int, bound, pv, age as int),
{
    let d: u8 = if depth < 0 {
        0
    } else if depth > 255 {
        255
    } else {
        depth as u8
    };
    TtEntry { key, mv, score, eval: narrow(eval), packed: pack(d, bound, pv, age) }
}

/// The cluster after a search result under `key` is stored into it.
pub open spec fn after_store(
    before: Cluster,
    after: Cluster,
    key: u16,
    age: int,
    ply: int,
    depth: int,
    score: int,
    mv: Move,
    bound: Bound,
    pv: bool,
    eval: int,
) -> bool {
    let i = before.victim(key, age);
    let slot = before.slot(i);
    let known = slot.key == key;
    if known && slot.outranks(depth, pv, bound, age) {
        // The better entry stays; only a move is taken over.
        after == (if mv.0 == 0 {
            before
        } else {
            before.with(i, TtEntry { mv: mv.0, ..slot })
        })
    } else {
        // A store without a move keeps the one that is known.
        &&& after == before.with(i, after.slot(i))
        &&& written(
            after.slot(i),
            key,
            if mv.0 == 0 && known {
                slot.mv
            } else {
                mv.0
            },
            defs::to_table(score, ply),
            eval,
            depth,
            bound,
            pv || (mv.0 == 0 && known && slot.pv()),
            age,
        )
    }
}

/// The cluster after a quiescence result under `key` is stored into it.
pub open spec fn after_store_qs(
    before: Cluster,
    after: Cluster,
    key: u16,
    age: int,
    ply: int,
    score: int,
    mv: Move,
    bound: Bound,
    pv: bool,
    eval: int,
) -> bool {
    match before.timid_victim(key, age) {
        None => after == before,
        Some(i) => {
            let slot = before.slot(i);
            let known = slot.key == key;
            if known && slot.outranks(0, pv, bound, age) {
                after == (if mv.0 == 0 {
                    before
                } else {
                    before.with(i, TtEntry { mv: mv.0, ..slot })
                })
            } else {
                &&& after == before.with(i, after.slot(i))
                &&& written(
                    after.slot(i),
                    key,
                    mv.0,
                    defs::to_table(score, ply),
                    eval,
                    0,
                    bound,
                    pv || (known && slot.pv()),
                    age,
                )
            }
        },
    }
}

/// Table `b` is table `a` with a search result stored.
pub open spec fn stored(
    a: TranspositionTable,
    b: TranspositionTable,
    hash: u64,
    ply: int,
    depth: int,
    score: int,
    mv: Move,
    bound: Bound,
    pv: bool,
    eval: int,
) -> bool {
    &&& b.generation == a.generation
    &&& b.age_factor == a.age_factor
    &&& b.clusters@ == a.clusters@.update(home(hash, a.clusters@.len() as int), b.cluster_of(hash))
    &&& after_store(
        a.cluster_of(hash),
        b.cluster_of(hash),
        verification(hash),
        a.age(),
        ply,
        depth,
        score,
        mv,
        bound,
        pv,
        eval,
    )
}

/// Table `b` is table `a` with a quiescence result stored.
pub open spec fn stored_qs(
    a: TranspositionTable,
    b: TranspositionTable,
    hash: u64,
    ply: int,
    score: int,
    mv: Move,
    bound: Bound,
    pv: bool,
    eval: int,
) -> bool {
    &&& b.generation == a.generation
    &&& b.age_factor == a.age_factor
    &&& b.clusters@ == a.clusters@.update(home(hash, a.clusters@.len() as int), b.cluster_of(hash))
    &&& after_store_qs(
        a.cluster_of(hash),
        b.cluster_of(hash),
        verification(hash),
        a.age(),
        ply,
        score,
        mv,
        bound,
        pv,
        eval,
    )
}

/// The cluster a key belongs to, out of `n`: the key's share of the whole.
pub open spec fn home(hash: u64, n: int) -> int {
    (hash * n) / 0x1_0000_0000_0000_0000
}

/// Clusters of slots, and the generation of the running search.
#[derive(Debug)]
pub struct TranspositionTable {
    pub clusters: Vec<Cluster>,
    pub generation: u8,
    pub age_factor: i32,
}

impl TranspositionTable {
    /// There is at least one cluster.
    pub open spec fn wf(self) -> bool {
        self.clusters@.len() > 0
    }

    /// Every slot is empty.
    pub open spec fn vacant(self) -> bool {
        forall|i: int|
            0 <= i < self.clusters@.len() ==> #[trigger] self.clusters@[i] == (Cluster {
                a: vacant(),
                b: vacant(),
                c: vacant(),
            })
    }

    /// The age that entries are written with.
    pub open spec fn age(self) -> int {
        self.generation as int % 32
    }

    /// How many clusters a table of `size_mb` megabytes has.
    pub open spec fn clusters_for(size_mb: int) -> int {
        (if size_mb < 1 {
            1
        } else {
            size_mb
        }) * 32768
    }

    fn blank(n: usize) -> (v: Vec<Cluster>)
        ensures
            v@.len() == n,
            forall|i: int|
                0 <= i < n ==> #[trigger] v@[i] == (Cluster { a: vacant(), b: vacant(), c: vacant() }),
    {
        let e = TtEntry { key: 0, mv: 0, score: 0, eval: 0, packed: 0 };
        let mut v: Vec<Cluster> = Vec::with_capacity(n);
        while v.len() < n
            invariant
                v@.len() <= n,
                e == vacant(),
                forall|i: int|
                    0 <= i < v@.len() ==> #[trigger] v@[i] == (Cluster { a: vacant(), b: vacant(), c: vacant() }),
            decreases n - v@.len(),
        {
            v.push(Cluster { a: e, b: e, c: e });
        }
        v
    }

    fn cluster_count(size_mb: usize) -> (n: usize)
        requires
            TranspositionTable::clusters_for(size_mb as int) <= usize::MAX,
        ensures
            n == TranspositionTable::clusters_for(size_mb as int),
            n > 0,
    {
        if size_mb < 1 {
            32768
        } else {
            size_mb * 32768
        }
    }

    /// An empty table of about `size_mb` megabytes.
    pub fn new(size_mb: usize) -> (t: TranspositionTable)
        requires
            TranspositionTable::clusters_for(size_mb as int) <= usize::MAX,
        ensures
            t.wf(),
            t.vacant(),
            forall|k: int| k >= 0 ==> #[trigger] t.within(k),
            t.generation == 0,
            t.age_factor == 2,
            t.clusters@.len() == TranspositionTable::clusters_for(size_mb as int),
    {
        TranspositionTable {
            clusters: TranspositionTable::blank(TranspositionTable::cluster_count(size_mb)),
            generation: 0,
            age_factor: 2,
        }
    }

    /// Replaces the slots by empty ones, about `size_mb` megabytes of them.
    pub fn resize(&mut self, size_mb: usize)
        requires
            TranspositionTable::clusters_for(size_mb as int) <= usize::MAX,
        ensures
            final(self).wf(),
            final(self).vacant(),
            forall|k: int| k >= 0 ==> #[trigger] final(self).within(k),
            final(self).clusters@.len() == TranspositionTable::clusters_for(size_mb as int),
            final(self).generation == old(self).generation,
            final(self).age_factor == old(self).age_factor,
    {
        self.clusters = TranspositionTable::blank(TranspositionTable::cluster_count(size_mb));
    }

    /// Empties every slot and starts the generations over.
    pub fn clear(&mut self)
        requires
            old(self).wf(),
        ensures
            final(self).wf(),
            final(self).vacant(),
            forall|k: int| k >= 0 ==> #[trigger] final(self).within(k),
            final(self).clusters@.len() == old(self).clusters@.len(),
            final(self).generation == 0,
            final(self).age_factor == old(self).age_factor,
    {
        let n: usize = self.clusters.len();
        self.clusters = TranspositionTable::blank(n);
        self.generation = 0;
    }

    pub fn set_age_factor(&mut self, factor: i32)
        ensures
            final(self).age_factor == factor,
            final(self).clusters == old(self).clusters,
            final(self).generation == old(self).generation,
    {
        self.age_factor = factor;
    }

    /// Starts a generation. The count wraps; aging reads its five low bits.
    pub fn begin_search(&mut self)
        ensures
            final(self).generation == (old(self).generation as int + 1) % 256,
            final(self).clusters == old(self).clusters,
            final(self).age_factor == old(self).age_factor,
    {
        self.generation = self.generation.wrapping_add(1);
    }

    fn index(&self, hash: u64) -> (i: usize)
        requires
            self.wf(),
        ensures
            i == home(hash, self.clusters@.len() as int),
            i < self.clusters@.len(),
    {
        let n: u128 = self.clusters.len() as u128;
        let h: u128 = hash as u128;
        assert(0 <= h * n < 0x1_0000_0000_0000_0000 * n) by (nonlinear_arith)
            requires
                0 <= h < 0x1_0000_0000_0000_0000,
                n > 0,
        ;
        assert(h * n <= u128::MAX) by (nonlinear_arith)
            requires
                0 <= h < 0x1_0000_0000_0000_0000,
                0 < n <= 0xffff_ffff_ffff_ffff,
        ;
        let q: u128 = (h * n) / 0x1_0000_0000_0000_0000;
        assert(q < n) by (nonlinear_arith)
            requires
                0 <= h * n < 0x1_0000_0000_0000_0000 * n,
                q == (h * n) / 0x1_0000_0000_0000_0000,
        ;
        q as usize
    }

    /// The cluster of a key.
    pub open spec fn cluster_of(self, hash: u64) -> Cluster {
        self.clusters@[home(hash, self.clusters@.len() as int)]
    }

    /// What the table knows of a position.
    pub open spec fn known(self, hash: u64, ply: int) -> TtData {
        let c = self.cluster_of(hash);
        match c.hit(verification(hash)) {
            Some(i) => TtData::of(c.slot(i), ply),
            None => TtData::absent(),
        }
    }

    /// What the table knows of a position.
    pub fn probe(&self, hash: u64, ply: usize) -> (d: TtData)
        requires
            self.wf(),
            ply <= MAX_PLY + 1,
        ensures
            d == self.known(hash, ply as int),
            -33015 <= d.score <= 33015,
            -32768 <= d.eval <= 32767,
            0 <= d.depth <= 255,
    {
        let key: u16 = verification_key(hash);
        let c: Cluster = self.clusters[self.index(hash)];
        let mut i: usize = 0;
        while i < 3
            invariant
                i <= 3,
                forall|j: int|
                    0 <= j < i ==> !((#[trigger] c.slot(j)).key == key && c.slot(j).bound() != Bound::Empty),
                c == self.cluster_of(hash),
                key == verification(hash),
                ply <= MAX_PLY + 1,
            decreases 3 - i,
        {
            let e = c.get(i);
            let bound = packed_bound(e.packed);
            if e.key == key && bound != Bound::Empty {
                assert(c.hit(key) == Some(i as int)) by {
                    assert(c.slot(0) == c.a && c.slot(1) == c.b && c.slot(2) == c.c);
                }
                return TtData {
                    raw_mv: Move::from_u16(e.mv),
                    score: score_from_tt(e.score as i32, ply),
                    depth: packed_depth(e.packed),
                    bound,
                    pv: packed_pv(e.packed),
                    eval: e.eval as i32,
                };
            }
            i = i + 1;
        }
        assert(c.hit(key) is None) by {
            assert(c.slot(0) == c.a && c.slot(1) == c.b && c.slot(2) == c.c);
        }
        TtData {
            raw_mv: Move::null(),
            pv: false,
            eval: SCORE_NONE,
            score: SCORE_NONE,
            bound: Bound::Empty,
            depth: 0,
        }
    }

    fn find_victim(c: &Cluster, key: u16, age: u8) -> (i: usize)
        requires
            age < 32,
        ensures
            i < 3,
            i == c.victim(key, age as int),
    {
        let mut i: usize = 0;
        let mut best: usize = 0;
        let mut worst: i32 = i32::MAX;
        while i < 3
            invariant
                i <= 3,
                best < 3,
                age < 32,
                forall|j: int| 0 <= j < i ==> !Cluster::free_for(#[trigger] c.slot(j), key, false),
                forall|j: int| 0 <= j < i ==> worst <= (#[trigger] c.slot(j)).quality(age as int),
                forall|j: int| 0 <= j < best && j < i ==> worst < (#[trigger] c.slot(j)).quality(age as int),
                i > 0 ==> best < i && worst == c.slot(best as int).quality(age as int),
                i == 0 ==> worst == i32::MAX,
            decreases 3 - i,
        {
            let e = c.get(i);
            if packed_bound(e.packed) == Bound::Empty || e.key == key {
                assert(Cluster::free_for(c.slot(i as int), key, false));
                assert(c.slot(0) == c.a && c.slot(1) == c.b && c.slot(2) == c.c);
                return i;
            }
            let q: i32 = replacement_quality(&e, age);
            if q < worst {
                worst = q;
                best = i;
            }
            i = i + 1;
        }
        assert(c.slot(0) == c.a && c.slot(1) == c.b && c.slot(2) == c.c);
        best
    }

    fn find_timid_victim(c: &Cluster, key: u16, age: u8) -> (r: Option<usize>)
        requires
            age < 32,
        ensures
            match r {
                Some(i) => i < 3 && c.timid_victim(key, age as int) == Some(i as int),
                None => c.timid_victim(key, age as int) is None,
            },
    {
        let mut i: usize = 0;
        let mut best: Option<usize> = None;
        let mut worst: i32 = i32::MAX;
        while i < 3
            invariant
                i <= 3,
                age < 32,
                forall|j: int| 0 <= j < i ==> !Cluster::free_for(#[trigger] c.slot(j), key, true),
                best is None ==> worst == i32::MAX && forall|j: int|
                    0 <= j < i ==> (#[trigger] c.slot(j)).quality(age as int) > 0,
                best matches Some(k) ==> {
                    &&& k < i
                    &&& worst == c.slot(k as int).quality(age as int)
                    &&& worst <= 0
                    &&& forall|j: int| 0 <= j < i ==> worst <= (#[trigger] c.slot(j)).quality(age as int)
                    &&& forall|j: int| 0 <= j < k ==> worst < (#[trigger] c.slot(j)).quality(age as int)
                },
            decreases 3 - i,
        {
            let e = c.get(i);
            if e.key == key || packed_bound(e.packed) == Bound::Empty || packed_depth(e.packed) == 0 {
                assert(Cluster::free_for(c.slot(i as int), key, true));
                assert(c.slot(0) == c.a && c.slot(1) == c.b && c.slot(2) == c.c);
                return Some(i);
            }
            let q: i32 = replacement_quality(&e, age);
            if q <= 0 && q < worst {
                worst = q;
                best = Some(i);
            }
            i = i + 1;
        }
        assert(c.slot(0) == c.a && c.slot(1) == c.b && c.slot(2) == c.c);
        best
    }

    /// Stores what a search found of a position.
    pub fn store(
        &mut self,
        hash: u64,
        ply: usize,
        depth: i32,
        score: i32,
        mv: Move,
        bound: Bound,
        pv: bool,
        eval: i32,
    )
        requires
            old(self).wf(),
            ply <= MAX_PLY + 1,
            -SCORE_NONE <= score <= SCORE_NONE,
        ensures
            final(self).wf(),
            stored(
                *old(self),
                *final(self),
                hash,
                ply as int,
                depth as int,
                score as int,
                mv,
                bound,
                pv,
                eval as int,
            ),
    {
        let at: usize = self.index(hash);
        let key: u16 = verification_key(hash);
        let age: u8 = self.generation % 32;
        let mut c: Cluster = self.clusters[at];
        let i: usize = TranspositionTable::find_victim(&c, key, age);
        let slot = c.get(i);
        let known = slot.key == key;
        if known && stored_outranks(&slot, depth, pv, bound, age) {
            if !mv.is_null() {
                c.put(i, TtEntry { mv: mv.inner(), ..slot });
            }
        } else {
            let bare = mv.is_null() && known;
            let store_mv: u16 = if bare {
                slot.mv
            } else {
                mv.inner()
            };
            let store_pv = pv || (bare && packed_pv(slot.packed));
            let s: i32 = score_to_tt(score, ply);
            c.put(i, write(key, store_mv, s as i16, eval, depth, bound, store_pv, age));
        }
        self.clusters[at] = c;
    }

    /// Stores what the quiescence search found of a position. It floods the table with
    /// shallow entries, so it never evicts a fresh deep one.
    pub fn store_qs(&mut self, hash: u64, ply: usize, score: i32, mv: Move, bound: Bound, pv: bool, eval: i32)
        requires
            old(self).wf(),
            ply <= MAX_PLY + 1,
            -SCORE_NONE <= score <= SCORE_NONE,
        ensures
            final(self).wf(),
            stored_qs(
                *old(self),
                *final(self),
                hash,
                ply as int,
                score as int,
                mv,
                bound,
                pv,
                eval as int,
            ),
    {
        let at: usize = self.index(hash);
        let key: u16 = verification_key(hash);
        let age: u8 = self.generation % 32;
        let mut c: Cluster = self.clusters[at];
        if let Some(i) = TranspositionTable::find_timid_victim(&c, key, age) {
            let slot = c.get(i);
            let known = slot.key == key;
            if known && stored_outranks(&slot, 0, pv, bound, age) {
                if !mv.is_null() {
                    c.put(i, TtEntry { mv: mv.inner(), ..slot });
                }
            } else {
                let store_pv = pv || (known && packed_pv(slot.packed));
                let s: i32 = score_to_tt(score, ply);
                c.put(i, write(key, mv.inner(), s as i16, eval, 0, bound, store_pv, age));
            }
        }
        self.clusters[at] = c;
    }

    /// How many of the first `n` slots are in use.
    pub open spec fn used(self, n: int) -> int
        decreases n,
    {
        if n <= 0 {
            0
        } else {
            self.used(n - 1) + (if self.clusters@[(n - 1) / 3].slot((n - 1) % 3).bound() != Bound::Empty {
                1int
            } else {
                0
            })
        }
    }

    /// How full the table is, in thousandths, judged by the first thousand slots.
    pub fn hashfull(&self) -> (r: usize)
        requires
            self.wf(),
        ensures
            r == (if self.clusters@.len() * 3 < 1000 {
                self.used(3 * self.clusters@.len() as int) * 1000 / (3 * self.clusters@.len() as int)
            } else {
                self.used(1000)
            }),
            r <= 1000,
    {
        let n: usize = if self.clusters.len() < 334 {
            self.clusters.len() * 3
        } else {
            1000
        };
        let mut count: usize = 0;
        let mut i: usize = 0;
        while i < n
            invariant
                i <= n <= 1000,
                n <= self.clusters@.len() * 3,
                count <= i,
                count == self.used(i as int),
            decreases n - i,
        {
            let e = self.clusters[i / 3].get(i % 3);
            if packed_bound(e.packed) != Bound::Empty {
                count = count + 1;
            }
            i = i + 1;
        }
        assert(count * 1000 / (n as int) <= 1000) by (nonlinear_arith)
            requires
                0 <= count <= n,
                n > 0,
        ;
        count * 1000 / n
    }
}

/// A stored result is what the next probe of the position finds, unless an entry that
/// outranks it was there; a move is taken over either way.
pub proof fn law_a_probe_finds_what_was_stored(
    before: Cluster,
    after: Cluster,
    key: u16,
    age: int,
    ply: int,
    depth: int,
    score: int,
    mv: Move,
    bound: Bound,
    pv: bool,
    eval: int,
)
    requires
        after_store(before, after, key, age, ply, depth, score, mv, bound, pv, eval),
        before.tidy(),
        bound != Bound::Empty,
        0 <= depth <= 255,
        -32768 <= eval <= 32767,
        -SCORE_NONE <= score <= SCORE_NONE,
        0 <= ply <= MAX_PLY,
    ensures
        ({
            let i = before.victim(key, age);
            let slot = before.slot(i);
            let kept = slot.key == key && slot.outranks(depth, pv, bound, age);
            let d = TtData::of(after.slot(i), ply);
            &&& after.hit(key) == Some(i)
            &&& mv.0 != 0 ==> d.raw_mv == mv
            &&& !kept ==> d.score == score && d.eval == eval && d.bound == bound && d.depth == depth && (pv ==> d.pv)
        }),
{
    let i = before.victim(key, age);
    let slot = before.slot(i);
    assert(0 <= i <= 2);
    assert(before.slot(0) == before.a && before.slot(1) == before.b && before.slot(2) == before.c);
    assert(after.slot(0) == after.a && after.slot(1) == after.b && after.slot(2) == after.c);
    defs::law_table_scores_come_back(score, ply);
    if slot.key == key && slot.outranks(depth, pv, bound, age) {
        assert(slot.bound() != Bound::Empty) by {
            if slot.bound() == Bound::Empty {
                let x = slot.staleness(age);
                assert(x * x >= 0) by (nonlinear_arith);
            }
        }
    }
}

/// Storing a result keeps blank slots blank.
pub proof fn law_stores_leave_clusters_tidy(
    before: Cluster,
    after: Cluster,
    key: u16,
    age: int,
    ply: int,
    depth: int,
    score: int,
    mv: Move,
    bound: Bound,
    pv: bool,
    eval: int,
)
    requires
        before.tidy(),
        bound != Bound::Empty,
        after_store(before, after, key, age, ply, depth, score, mv, bound, pv, eval),
    ensures
        after.tidy(),
{
    let i = before.victim(key, age);
    assert(before.slot(0) == before.a && before.slot(1) == before.b && before.slot(2) == before.c);
    assert(after.slot(0) == after.a && after.slot(1) == after.b && after.slot(2) == after.c);
}

impl TtEntry {
    /// The score is at most `k` from zero, and the move is one that generation hands out.
    pub open spec fn within(self, k: int) -> bool {
        -k <= self.score <= k && Move(self.mv).canonical()
    }
}

impl Cluster {
    /// Every slot keeps the limit `k`.
    pub open spec fn within(self, k: int) -> bool {
        self.a.within(k) && self.b.within(k) && self.c.within(k)
    }
}

impl TranspositionTable {
    /// Every slot keeps the limit `k`.
    pub open spec fn within(self, k: int) -> bool {
        forall|i: int| 0 <= i < self.clusters@.len() ==> (#[trigger] self.clusters@[i]).within(k)
    }
}

/// A key's share of the whole is one of the clusters.
proof fn lemma_home(hash: u64, n: int)
    requires
        n > 0,
    ensures
        0 <= home(hash, n) < n,
{
    let h = hash as int;
    assert(0 <= h * n < 0x1_0000_0000_0000_0000 * n) by (nonlinear_arith)
        requires
            0 <= h < 0x1_0000_0000_0000_0000,
            n > 0,
    ;
    let q = (h * n) / 0x1_0000_0000_0000_0000;
    assert(0 <= q < n) by (nonlinear_arith)
        requires
            0 <= h * n < 0x1_0000_0000_0000_0000 * n,
            q == (h * n) / 0x1_0000_0000_0000_0000,
    ;
}

/// A table that keeps a limit answers a probe at `ply` with a score that keeps it,
/// mates counted from the root.
pub proof fn lemma_known_within(t: TranspositionTable, hash: u64, ply: int, k: int)
    requires
        t.wf(),
        t.within(k),
        0 <= ply <= MAX_PLY,
        k <= 32000,
        k - ply >= defs::MATE_BOUND,
    ensures
        t.known(hash, ply).bound != Bound::Empty ==> -(k - ply) <= t.known(hash, ply).score <= k - ply,
        t.known(hash, ply).bound == Bound::Empty ==> t.known(hash, ply) == TtData::absent(),
        t.known(hash, ply).raw_mv.canonical(),
{
    lemma_home(hash, t.clusters@.len() as int);
    let c = t.cluster_of(hash);
    assert(c.within(k));
    assert(c.slot(0) == c.a && c.slot(1) == c.b && c.slot(2) == c.c);
}

/// Storing a score that keeps a limit keeps the table within it.
pub proof fn lemma_store_within(
    t: TranspositionTable,
    u: TranspositionTable,
    hash: u64,
    ply: int,
    depth: int,
    score: int,
    mv: Move,
    bound: Bound,
    pv: bool,
    eval: int,
    k: int,
)
    requires
        t.wf(),
        t.within(k),
        -(k - ply) <= score <= k - ply,
        mv.canonical(),
        0 <= ply,
        u.clusters@ == t.clusters@.update(home(hash, t.clusters@.len() as int), u.cluster_of(hash)),
        after_store(t.cluster_of(hash), u.cluster_of(hash), verification(hash), t.age(), ply, depth, score, mv, bound, pv, eval)
            || after_store_qs(t.cluster_of(hash), u.cluster_of(hash), verification(hash), t.age(), ply, score, mv, bound, pv, eval),
    ensures
        u.within(k),
{
    lemma_home(hash, t.clusters@.len() as int);
    let c = t.cluster_of(hash);
    let d = u.cluster_of(hash);
    assert(c.within(k));
    assert(c.slot(0) == c.a && c.slot(1) == c.b && c.slot(2) == c.c);
    assert(d.slot(0) == d.a && d.slot(1) == d.b && d.slot(2) == d.c);
    assert(d.within(k));
}

/// A result of the main search that is still worth keeping is never given up for one of the
/// quiescence search on another position.
pub proof fn law_a_deep_fresh_entry_survives_quiescence(
    before: Cluster,
    after: Cluster,
    key: u16,
    age: int,
    ply: int,
    score: int,
    mv: Move,
    bound: Bound,
    pv: bool,
    eval: int,
    i: int,
)
    requires
        after_store_qs(before, after, key, age, ply, score, mv, bound, pv, eval),
        0 <= i < 3,
        !Cluster::free_for(before.slot(i), key, true),
        before.slot(i).quality(age) > 0,
    ensures
        after.slot(i) == before.slot(i),
{
}

/// A fresh result of the main search on another position is never given up for a quiescence
/// result: what is known of `g` stays known.
pub proof fn law_quiescence_leaves_fresh_results_alone(
    a: TranspositionTable,
    b: TranspositionTable,
    hash: u64,
    ply: int,
    score: int,
    mv: Move,
    bound: Bound,
    pv: bool,
    eval: int,
    g: u64,
    i: int,
    q: int,
)
    requires
        a.wf(),
        stored_qs(a, b, hash, ply, score, mv, bound, pv, eval),
        verification(g) != verification(hash),
        a.cluster_of(g).hit(verification(g)) == Some(i),
        a.cluster_of(g).slot(i).staleness(a.age()) == 0,
        a.cluster_of(g).slot(i).depth() >= 1,
    ensures
        b.known(g, q) == a.known(g, q),
{
    let n = a.clusters@.len() as int;
    lemma_home(hash, n);
    lemma_home(g, n);
    let c = a.cluster_of(hash);
    let d = b.cluster_of(hash);
    assert(c.slot(0) == c.a && c.slot(1) == c.b && c.slot(2) == c.c);
    assert(d.slot(0) == d.a && d.slot(1) == d.b && d.slot(2) == d.c);
    assert(b.clusters@.len() == n);
    if home(g, n) == home(hash, n) {
        assert(a.cluster_of(g) == c && b.cluster_of(g) == d);
        assert(c.slot(i).quality(a.age()) > 0);
        law_a_deep_fresh_entry_survives_quiescence(
            c,
            d,
            verification(hash),
            a.age(),
            ply,
            score,
            mv,
            bound,
            pv,
            eval,
            i,
        );
    } else {
        assert(b.cluster_of(g) == a.cluster_of(g));
    }
}

/// A cluster full of fresh results of the main search on other positions takes no quiescence
/// result: the table stays as it is.
pub proof fn law_quiescence_finds_no_room_among_fresh_results(
    a: TranspositionTable,
    b: TranspositionTable,
    hash: u64,
    ply: int,
    score: int,
    mv: Move,
    bound: Bound,
    pv: bool,
    eval: int,
)
    requires
        a.wf(),
        stored_qs(a, b, hash, ply, score, mv, bound, pv, eval),
        forall|k: int|
            0 <= k < 3 ==> {
                let e = #[trigger] a.cluster_of(hash).slot(k);
                e.bound() != Bound::Empty && e.key != verification(hash) && e.staleness(a.age()) == 0 && e.depth() >= 1
            },
    ensures
        b.clusters@ =~= a.clusters@,
{
    lemma_home(hash, a.clusters@.len() as int);
    let c = a.cluster_of(hash);
    assert(c.slot(0) == c.a && c.slot(1) == c.b && c.slot(2) == c.c);
    assert(c.slot(0).quality(a.age()) > 0 && c.slot(1).quality(a.age()) > 0 && c.slot(2).quality(a.age()) > 0);
}

/// A stored score settles a window where every score that its bound allows lies on one side of it
/// or is that score: a lower bound allows all scores from it up, an upper bound all from it down.
pub proof fn law_a_bound_settles_what_it_proves(score: int, alpha: int, beta: int)
    ensures
        settles(Bound::Lower, score, alpha, beta) <==> forall|v: int| score <= v ==> #[trigger] self::at_least(v, beta),
        settles(Bound::Upper, score, alpha, beta) <==> forall|v: int| v <= score ==> #[trigger] self::at_most(v, alpha),
        settles(Bound::Exact, score, alpha, beta),
        !settles(Bound::Empty, score, alpha, beta),
{
    if forall|v: int| score <= v ==> #[trigger] self::at_least(v, beta) {
        assert(self::at_least(score, beta));
    }
    if forall|v: int| v <= score ==> #[trigger] self::at_most(v, alpha) {
        assert(self::at_most(score, alpha));
    }
}

/// `v` reaches `x`.
pub open spec fn at_least(v: int, x: int) -> bool {
    v >= x
}

/// `v` does not pass `x`.
pub open spec fn at_most(v: int, x: int) -> bool {
    v <= x
}

/// A ply more of depth, an exact bound over a lower one over an upper one, and a place in the
/// variation each make an entry more worth keeping; age makes it less, the more the older.
pub proof fn law_what_makes_an_entry_worth_keeping(a: TtEntry, b: TtEntry, age: int)
    ensures
        a.bound() == b.bound() && a.pv() == b.pv() && a.age() == b.age() ==> a.quality(age) - b.quality(age) == a.depth()
            - b.depth(),
        a.depth() == b.depth() && a.pv() == b.pv() && a.age() == b.age() && a.bound() == Bound::Exact && b.bound()
            == Bound::Lower ==> a.quality(age) == b.quality(age) + 1,
        a.depth() == b.depth() && a.pv() == b.pv() && a.age() == b.age() && a.bound() == Bound::Lower && b.bound()
            == Bound::Upper ==> a.quality(age) == b.quality(age) + 1,
        a.depth() == b.depth() && a.bound() == b.bound() && a.age() == b.age() && a.pv() && !b.pv() ==> a.quality(age)
            == b.quality(age) + 1,
        a.depth() == b.depth() && a.bound() == b.bound() && a.pv() == b.pv() && a.staleness(age) <= b.staleness(age)
            ==> a.quality(age) >= b.quality(age),
        // Generations count modulo thirty-two.
        a.age() == age ==> a.staleness(age) == 0,
        age == a.age() + 4 ==> a.quality(age) + 4 == a.quality(a.age()),
        age == a.age() + 2 ==> a.quality(age) + 1 == a.quality(a.age()),
{
    let x = a.staleness(age);
    let y = b.staleness(age);
    assert(0 <= x <= y ==> x * x <= y * y) by (nonlinear_arith);
    assert(x == 4 ==> x * x == 16) by (nonlinear_arith);
    assert(x == 2 ==> x * x == 4) by (nonlinear_arith);
    assert(a.staleness(a.age()) == 0);
    assert(a.staleness(a.age()) * a.staleness(a.age()) == 0);
}

/// A full cluster gives up an entry that no other is less worth keeping than; a slot that is empty
/// or holds the position itself is taken first.
pub proof fn law_the_least_worth_keeping_goes_first(c: Cluster, key: u16, age: int, i: int)
    requires
        0 <= i < 3,
    ensures
        0 <= c.victim(key, age) < 3,
        (forall|k: int|
            0 <= k < 3 ==> (#[trigger] c.slot(k)).bound() != Bound::Empty && c.slot(k).key != key) ==> c.slot(
            c.victim(key, age),
        ).quality(age) <= c.slot(i).quality(age),
        c.slot(i).bound() == Bound::Empty || c.slot(i).key == key ==> c.slot(c.victim(key, age)).bound() == Bound::Empty
            || c.slot(c.victim(key, age)).key == key,
{
    assert(c.slot(0) == c.a && c.slot(1) == c.b && c.slot(2) == c.c);
}

/// What is known of a position gives way to a result that is as deep and as well bounded, and
/// always to an exact one where it is not exact itself; it stays where it is half as deep again.
pub proof fn law_a_better_result_replaces_what_is_known(e: TtEntry, depth: int, pv: bool, bound: Bound, age: int)
    requires
        bound != Bound::Empty,
    ensures
        depth >= e.depth() && bound.bonus() >= e.bound().bonus() ==> !e.outranks(depth, pv, bound, age),
        bound == Bound::Exact && e.bound() != Bound::Exact ==> !e.outranks(depth, pv, bound, age),
        depth >= 0 && e.age() == age && !(bound == Bound::Exact && e.bound() != Bound::Exact) && 2 * e.depth() > 3 * depth + 12
            ==> e.outranks(depth, pv, bound, age),
{
    let x = e.staleness(age);
    assert(x * x >= 0) by (nonlinear_arith);
    assert(x == 0 ==> x * x == 0) by (nonlinear_arith);
}

/// A bound comes out of a slot as it went in, and a score or a depth that fits does so too.
pub proof fn law_bounds_scores_and_depths_fit_their_slots(b: Bound, x: int, d: int)
    ensures
        Bound::decoded(b.code()) == b,
        0 <= b.code() < 4,
        -32768 <= narrowed(x) <= 32767,
        -32768 <= x <= 32767 ==> narrowed(x) == x,
        0 <= shortened(d) <= 255,
        0 <= d <= 255 ==> shortened(d) == d,
        x > 32767 ==> narrowed(x) == 32767,
        x < -32768 ==> narrowed(x) == -32768,
        d < 0 ==> shortened(d) == 0,
        d > 255 ==> shortened(d) == 255,
{
}

/// Keys are dealt out to the clusters in their order, the first of them to the first cluster and
/// the last to the last.
pub proof fn law_keys_are_dealt_out_in_order(a: u64, b: u64, n: int)
    requires
        a <= b,
        0 < n <= 0x1_0000_0000_0000_0000,
    ensures
        0 <= home(a, n) <= home(b, n) < n,
        home(0, n) == 0,
        home(u64::MAX, n) == n - 1,
{
    let m = 0x1_0000_0000_0000_0000int;
    assert(0 <= a * n <= b * n && b * n <= (m - 1) * n && 0 * n == 0) by (nonlinear_arith)
        requires
            0 <= a <= b <= m - 1,
            n > 0,
            m == 0x1_0000_0000_0000_0000int,
    ;
    assert((m - 1) * n == m * n - n) by (nonlinear_arith);
    assert((m - 1) * n / m == n - 1) by (nonlinear_arith)
        requires
            (m - 1) * n == m * n - n,
            0 < n <= m,
            m == 0x1_0000_0000_0000_0000int,
    ;
    vstd::arithmetic::div_mod::lemma_div_is_ordered(a * n, b * n, m);
    vstd::arithmetic::div_mod::lemma_div_is_ordered(b * n, (m - 1) * n, m);
    vstd::arithmetic::div_mod::lemma_div_is_ordered(0, a * n, m);
}

/// Every megabyte holds as many clusters, and a table has at least one megabyte.
pub proof fn law_every_megabyte_holds_as_many_clusters(a: int, b: int)
    requires
        a >= 1,
        b >= 1,
    ensures
        TranspositionTable::clusters_for(a + b) == TranspositionTable::clusters_for(a) + TranspositionTable::clusters_for(b),
        TranspositionTable::clusters_for(a) * 32 == a * 1024 * 1024,
        TranspositionTable::clusters_for(0) == TranspositionTable::clusters_for(1),
{
}

/// A quiescence result goes into a slot that is free or shallow, or into one that is not worth
/// keeping; where every slot is worth keeping it goes nowhere.
pub proof fn law_quiescence_takes_what_is_not_worth_keeping(c: Cluster, key: u16, age: int)
    ensures
        c.timid_victim(key, age) matches Some(i) ==> 0 <= i < 3 && (Cluster::free_for(c.slot(i), key, true) || c.slot(i).quality(age)
            <= 0),
        c.timid_victim(key, age) is None ==> forall|i: int|
            0 <= i < 3 ==> (#[trigger] c.slot(i)).quality(age) > 0 && !Cluster::free_for(c.slot(i), key, true),
        c.timid_victim(key, age) matches Some(i) ==> (!Cluster::free_for(c.slot(i), key, true) ==> forall|j: int|
            0 <= j < 3 ==> c.slot(i).quality(age) <= (#[trigger] c.slot(j)).quality(age)),
        forall|i: int| 0 <= i < 3 && (#[trigger] c.slot(i)).key == key ==> c.timid_victim(key, age) is Some,
{
    assert forall|i: int| 0 <= i < 3 && (#[trigger] c.slot(i)).key == key implies c.timid_victim(key, age) is Some by {
        assert(Cluster::free_for(c.slot(i), key, true));
    }
    if c.timid_victim(key, age) is None {
        assert forall|i: int| 0 <= i < 3 implies (#[trigger] c.slot(i)).quality(age) > 0 && !Cluster::free_for(
            c.slot(i),
            key,
            true,
        ) by {
            assert(i == 0 || i == 1 || i == 2);
        }
    }
}

/// The slots in use are counted one by one: none in an empty table, and one more for each slot
/// that holds something.
pub proof fn law_slots_in_use_are_counted_once(t: TranspositionTable, n: int)
    requires
        n >= 0,
    ensures
        0 <= t.used(n) <= n,
        t.clusters@[n / 3].slot(n % 3).bound() == Bound::Empty ==> t.used(n + 1) == t.used(n),
        t.clusters@[n / 3].slot(n % 3).bound() != Bound::Empty ==> t.used(n + 1) == t.used(n) + 1,
    decreases n,
{
    if n > 0 {
        law_slots_in_use_are_counted_once(t, n - 1);
    }
}

/// A key guards an entry with its low sixteen bits.
pub proof fn law_entries_are_guarded_by_the_low_bits(a: u64, b: u64)
    ensures
        verification(a) == verification(b) <==> a % 65536 == b % 65536,
{
}

} // verus!
