//! Hand-crafted evaluation.
//!
//! The score of a leaf is the piece-square sum that the search keeps up to date, plus
//! features measured on the spot: mobility, king safety, pawn structure.

use vstd::prelude::*;

use crate::chess::attacks::atk_king;
use crate::chess::bitboard::{Bitboard, Direction};
use crate::chess::census;
use crate::chess::defs::TOTAL_PHASE;
use crate::chess::geom;
use crate::chess::legal;
use crate::chess::position::{self, Position};
use crate::chess::psq::{self, Accumulator, Lane};
use crate::chess::rules::{self, Cell};
use crate::chess::spatial::{self, SpatialMaps, XorBoard};
use crate::chess::types::{Color, PieceType, Square};
use crate::engine::combiner::{self, safety_block, Accumulators, CombinerParams, LinearCombiner};
use crate::engine::eval_params::{
    BACKWARD_PAWN, BISHOP_PAIR, DEFENDED_PAWN_EG, DEFENDED_PAWN_MG, DOUBLED_PAWN, ENEMY_KING_DIST_EG, ENEMY_KING_DIST_MG,
    ISOLATED_PAWN, KING_DANGER, MINOR_BEHIND_PAWN, PASSED_PAWN_EG, PASSED_PAWN_MG, PHALANX_EG, PHALANX_MG, ROOK_OPEN, TEMPO,
    XRAY,
};
use crate::engine::history;
use crate::engine::mobility::{self, taper, Mobility, SpatialMetrics};
use crate::engine::pawns::{self, PawnFeatures};
use crate::engine::search_params::SearchParams;

verus! {

/// The number of king moves between two squares of an empty board.
pub open spec fn chebyshev(a: int, b: int) -> int {
    legal::greater(geom::file_gap(a, b), geom::rank_gap(a, b))
}

/// The number of king moves between two squares of an empty board.
pub fn chebyshev_distance(a: Square, b: Square) -> (d: u8)
    requires
        a.ok(),
        b.ok(),
    ensures
        d == chebyshev(a.at(), b.at()),
        d < 8,
{
    let f: u8 = if a.file() < b.file() {
        b.file() - a.file()
    } else {
        a.file() - b.file()
    };
    let r: u8 = if a.rank() < b.rank() {
        b.rank() - a.rank()
    } else {
        a.rank() - b.rank()
    };
    if f < r {
        r
    } else {
        f
    }
}

/// How many squares of `bb` are `i + 1` king moves from `k`, six and more counting alike.
pub open spec fn near(bb: Bitboard, k: int, i: int, n: nat) -> int {
    census::tally(|s: int| bb.has(s) && history::clamped(chebyshev(k, s), 1, 6) == i + 1, n)
}

/// Side `c` has two bishops.
pub open spec fn bishop_pair(b: Seq<Cell>, c: Color) -> bool {
    exists|s: int, t: int| #[trigger] stands(b, c, PieceType::Bishop, s) && #[trigger] stands(b, c, PieceType::Bishop, t) && s != t
}

/// A man of side `c` and kind `pt` stands on `s`.
pub open spec fn stands(b: Seq<Cell>, c: Color, pt: PieceType, s: int) -> bool {
    geom::on_board(s) && b[s] == rules::man(c, pt)
}

/// A pawn of either side stands on `s`.
pub open spec fn any_pawn(b: Seq<Cell>, s: int) -> bool {
    stands(b, Color::White, PieceType::Pawn, s) || stands(b, Color::Black, PieceType::Pawn, s)
}

/// A rook of side `c` stands on `s`, on a file without pawns.
pub open spec fn rook_open(b: Seq<Cell>, c: Color, s: int) -> bool {
    stands(b, c, PieceType::Rook, s) && forall|t: int| #[trigger] any_pawn(b, t) ==> geom::file(t) != geom::file(s)
}

/// A knight or bishop of side `c` stands on `s` with a pawn of either side right in front.
pub open spec fn minor_behind(b: Seq<Cell>, c: Color, s: int) -> bool {
    (stands(b, c, PieceType::Knight, s) || stands(b, c, PieceType::Bishop, s)) && any_pawn(b, s + 8 * c.up())
}

/// Rooks and queens of side `c` see `t`, next to the enemy king, past a man.
pub open spec fn xray_hit(p: Position, c: Color, t: int) -> bool {
    spatial::shadowed(p.board(), p.occ, c, true, t) && mobility::zone(p.board(), c.other(), t)
}

/// What is measured of one position; white less black where a difference is named.
#[derive(Clone, Copy, Debug)]
pub struct SharedFeatures {
    pub openness: i32,
    pub spatial: SpatialMetrics,
    /// Squares next to the enemy king that rooks and queens see past a man.
    pub xray_ortho: i32,
    pub bishop_pair_diff: i32,
    /// Rooks on files without pawns.
    pub rook_open_diff: i32,
    /// By rank as the owner sees it, the second first.
    pub passed_pawn: [i32; 6],
    /// By the distance of the enemy king from a passed pawn.
    pub enemy_king_dist: [i32; 6],
    pub doubled_pawn_diff: i32,
    pub isolated_pawn_diff: i32,
    pub phalanx: [i32; 6],
    pub defended_pawn: [i32; 6],
    pub backward_pawn_diff: i32,
    /// 1 if white is to move, -1 if black is.
    pub tempo: i32,
    /// Knights and bishops right behind a pawn.
    pub minor_behind_pawn_diff: i32,
}

impl SharedFeatures {
    /// The pawn features are those of `pawn`.
    pub open spec fn carries(self, pawn: PawnFeatures) -> bool {
        &&& self.openness == pawn.openness
        &&& self.passed_pawn == pawn.passed_pawn
        &&& self.doubled_pawn_diff == pawn.doubled_pawn_diff
        &&& self.isolated_pawn_diff == pawn.isolated_pawn_diff
        &&& self.phalanx == pawn.phalanx
        &&& self.defended_pawn == pawn.defended_pawn
        &&& self.backward_pawn_diff == pawn.backward_pawn_diff
    }

    /// The other features are those of position `p`, the passed pawns being given.
    pub open spec fn measures(self, p: Position, w_passers: Bitboard, b_passers: Bitboard) -> bool {
        let b = p.board();
        &&& self.spatial.of(p)
        &&& self.xray_ortho == census::tally(|t: int| xray_hit(p, Color::White, t), 64) - census::tally(
            |t: int| xray_hit(p, Color::Black, t),
            64,
        )
        &&& self.bishop_pair_diff == history::flag(bishop_pair(b, Color::White)) - history::flag(
            bishop_pair(b, Color::Black),
        )
        &&& self.rook_open_diff == census::tally(|s: int| rook_open(b, Color::White, s), 64) - census::tally(
            |s: int| rook_open(b, Color::Black, s),
            64,
        )
        &&& forall|i: int|
            0 <= i < 6 ==> #[trigger] self.enemy_king_dist[i] == near(
                w_passers,
                position::king_of(b, Color::Black),
                i,
                64,
            ) - near(b_passers, position::king_of(b, Color::White), i, 64)
        &&& self.tempo == (if p.stm == Color::White {
            1int
        } else {
            -1
        })
        &&& self.minor_behind_pawn_diff == census::tally(|s: int| minor_behind(b, Color::White, s), 64) - census::tally(
            |s: int| minor_behind(b, Color::Black, s),
            64,
        )
    }

    /// Whether these are the features of position `p`.
    pub open spec fn of(self, p: Position) -> bool {
        exists|pawn: PawnFeatures| #[trigger]
            pawn.of(p.board()) && self.carries(pawn) && self.measures(p, pawn.w_passers, pawn.b_passers)
    }

    /// No feature is out of proportion.
    pub open spec fn small(self) -> bool {
        &&& 0 <= self.openness <= mobility::OPEN_UNITY
        &&& self.spatial.small()
        &&& -64 <= self.xray_ortho <= 64
        &&& -64 <= self.bishop_pair_diff <= 64
        &&& -64 <= self.rook_open_diff <= 64
        &&& forall|i: int| 0 <= i < 6 ==> -64 <= #[trigger] self.passed_pawn[i] <= 64
        &&& forall|i: int| 0 <= i < 6 ==> -64 <= #[trigger] self.enemy_king_dist[i] <= 64
        &&& -64 <= self.doubled_pawn_diff <= 64
        &&& -64 <= self.isolated_pawn_diff <= 64
        &&& forall|i: int| 0 <= i < 6 ==> -64 <= #[trigger] self.phalanx[i] <= 64
        &&& forall|i: int| 0 <= i < 6 ==> -64 <= #[trigger] self.defended_pawn[i] <= 64
        &&& -64 <= self.backward_pawn_diff <= 64
        &&& -64 <= self.tempo <= 64
        &&& -64 <= self.minor_behind_pawn_diff <= 64
    }

    /// Measures a position.
    pub fn compute(board: &Position) -> (f: SharedFeatures)
        requires
            board.wf(),
        ensures
            f.of(*board),
            f.small(),
    {
        let pawn = PawnFeatures::compute(board);
        SharedFeatures::with_pawn(board, &pawn, None)
    }

    /// Measures a position but for its pawns. The distances of kings from passed pawns are
    /// measured here: they change with the kings.
    pub fn with_pawn(board: &Position, pawn: &PawnFeatures, rows: Option<&XorBoard>) -> (f: SharedFeatures)
        requires
            board.wf(),
            pawn.small(),
            rows matches Some(x) ==> x.of(board.board()),
        ensures
            f.carries(*pawn),
            f.measures(*board, pawn.w_passers, pawn.b_passers),
            pawn.of(board.board()) ==> f.of(*board),
            f.small(),
    {
        let ghost b = board.board();
        let ghost p = *board;
        let pinned_w = board.pinned_pieces(Color::White);
        let pinned_b = board.pinned_pieces(Color::Black);
        let maps = SpatialMaps::compute(board, pinned_w, pinned_b);
        let spatial = Mobility::compute_all(board, &maps, pinned_w, pinned_b, rows);
        let w_ksq = board.king_square(Color::White);
        let b_ksq = board.king_square(Color::Black);
        let w_xray = maps.ortho_xray[0].and(atk_king(b_ksq));
        let b_xray = maps.ortho_xray[1].and(atk_king(w_ksq));
        proof {
            assert(Color::White.index() == 0 && Color::Black.index() == 1);
            assert forall|t: int| geom::on_board(t) implies (#[trigger] w_xray.has(t) <==> xray_hit(p, Color::White, t)) by {
                assert(maps.ortho_xray[Color::White.index()].has(t) <==> geom::on_board(t) && spatial::shadowed(
                    b,
                    p.occ,
                    Color::White,
                    true,
                    t,
                ));
            }
            assert forall|t: int| geom::on_board(t) implies (#[trigger] b_xray.has(t) <==> xray_hit(p, Color::Black, t)) by {
                assert(maps.ortho_xray[Color::Black.index()].has(t) <==> geom::on_board(t) && spatial::shadowed(
                    b,
                    p.occ,
                    Color::Black,
                    true,
                    t,
                ));
            }
            census::lemma_count(w_xray, |t: int| xray_hit(p, Color::White, t));
            census::lemma_count(b_xray, |t: int| xray_hit(p, Color::Black, t));
        }
        let (w_open, b_open, w_behind, b_behind) = count_pieces(board);
        let enemy_king_dist = by_distance(pawn.w_passers, pawn.b_passers, w_ksq, b_ksq);
        SharedFeatures {
            openness: pawn.openness,
            spatial,
            xray_ortho: w_xray.popcount() as i32 - b_xray.popcount() as i32,
            bishop_pair_diff: paired(board, Color::White) - paired(board, Color::Black),
            rook_open_diff: w_open - b_open,
            passed_pawn: pawn.passed_pawn,
            enemy_king_dist,
            doubled_pawn_diff: pawn.doubled_pawn_diff,
            isolated_pawn_diff: pawn.isolated_pawn_diff,
            phalanx: pawn.phalanx,
            defended_pawn: pawn.defended_pawn,
            backward_pawn_diff: pawn.backward_pawn_diff,
            tempo: if board.stm == Color::White {
                1
            } else {
                -1
            },
            minor_behind_pawn_diff: w_behind - b_behind,
        }
    }
}

/// 1 if side `c` has two bishops.
fn paired(board: &Position, c: Color) -> (r: i32)
    requires
        board.mirrored(),
    ensures
        r == history::flag(bishop_pair(board.board(), c)),
        0 <= r <= 1,
{
    let ghost b = board.board();
    let bishops = board.pieces(PieceType::Bishop, c);
    assert(forall|s: int| #[trigger] bishops.has(s) <==> stands(b, c, PieceType::Bishop, s));
    let many = bishops.more_than_one();
    proof {
        if many {
            let (s, t) = choose|s: int, t: int| #[trigger] bishops.has(s) && #[trigger] bishops.has(t) && s != t;
            assert(stands(b, c, PieceType::Bishop, s) && stands(b, c, PieceType::Bishop, t));
        }
        if bishop_pair(b, c) {
            let (s, t) = choose|s: int, t: int| #[trigger]
                stands(b, c, PieceType::Bishop, s) && #[trigger] stands(b, c, PieceType::Bishop, t) && s != t;
            assert(bishops.has(s) && bishops.has(t));
        }
    }
    if many {
        1
    } else {
        0
    }
}

/// White's and black's rooks on open files, and minors right behind pawns.
fn count_pieces(board: &Position) -> (r: (i32, i32, i32, i32))
    requires
        board.mirrored(),
    ensures
        r.0 == census::tally(|s: int| rook_open(board.board(), Color::White, s), 64),
        r.1 == census::tally(|s: int| rook_open(board.board(), Color::Black, s), 64),
        r.2 == census::tally(|s: int| minor_behind(board.board(), Color::White, s), 64),
        r.3 == census::tally(|s: int| minor_behind(board.board(), Color::Black, s), 64),
        0 <= r.0 <= 64,
        0 <= r.1 <= 64,
        0 <= r.2 <= 64,
        0 <= r.3 <= 64,
{
    let ghost b = board.board();
    let pawns = board.role(PieceType::Pawn);
    proof {
        assert forall|s: int| #[trigger] pawns.has(s) <==> any_pawn(b, s) by {
            if rules::occupied(b, s) {
                match b[s]->0.color {
                    Color::White => {},
                    Color::Black => {},
                }
            }
        }
    }
    let open = pawns.file_fill().not();
    let w_rooks = board.pieces(PieceType::Rook, Color::White).and(open);
    let b_rooks = board.pieces(PieceType::Rook, Color::Black).and(open);
    let w_minors = board.pieces(PieceType::Knight, Color::White).or(board.pieces(PieceType::Bishop, Color::White)).and(
        pawns.shift(Direction::South),
    );
    let b_minors = board.pieces(PieceType::Knight, Color::Black).or(board.pieces(PieceType::Bishop, Color::Black)).and(
        pawns.shift(Direction::North),
    );
    proof {
        assert forall|s: int| geom::on_board(s) implies (#[trigger] open.has(s) <==> forall|t: int| #[trigger]
            any_pawn(b, t) ==> geom::file(t) != geom::file(s)) by {
            if !open.has(s) {
                let t = choose|t: int| #[trigger] pawns.has(t) && geom::file(t) == geom::file(s);
                assert(any_pawn(b, t));
            }
            if open.has(s) {
                assert forall|t: int| #[trigger] any_pawn(b, t) implies geom::file(t) != geom::file(s) by {
                    assert(pawns.has(t));
                }
            }
        }
        census::lemma_count(w_rooks, |s: int| rook_open(b, Color::White, s));
        census::lemma_count(b_rooks, |s: int| rook_open(b, Color::Black, s));
        census::lemma_count(w_minors, |s: int| minor_behind(b, Color::White, s));
        census::lemma_count(b_minors, |s: int| minor_behind(b, Color::Black, s));
    }
    (w_rooks.popcount() as i32, b_rooks.popcount() as i32, w_minors.popcount() as i32, b_minors.popcount() as i32)
}

/// Sorts passed pawns by the distance of the enemy king: white's count up, black's down.
fn by_distance(w_passers: Bitboard, b_passers: Bitboard, w_ksq: Square, b_ksq: Square) -> (out: [i32; 6])
    requires
        w_ksq.ok(),
        b_ksq.ok(),
    ensures
        forall|i: int|
            0 <= i < 6 ==> #[trigger] out[i] == near(w_passers, b_ksq.at(), i, 64) - near(b_passers, w_ksq.at(), i, 64),
        forall|i: int| 0 <= i < 6 ==> -64 <= #[trigger] out[i] <= 64,
{
    let mut out: [i32; 6] = [0; 6];
    let mut s: u8 = 0;
    while s < 64
        invariant
            s <= 64,
            w_ksq.ok(),
            b_ksq.ok(),
            forall|i: int|
                0 <= i < 6 ==> #[trigger] out[i] == near(w_passers, b_ksq.at(), i, s as nat) - near(
                    b_passers,
                    w_ksq.at(),
                    i,
                    s as nat,
                ),
            forall|i: int| 0 <= i < 6 ==> -s <= #[trigger] out[i] <= s,
        decreases 64 - s,
    {
        let sq = Square(s);
        let ghost out0 = out;
        if w_passers.check_bit(sq) {
            let i: usize = ring(b_ksq, sq);
            out[i] = out[i] + 1;
        }
        let ghost out1 = out;
        if b_passers.check_bit(sq) {
            let i: usize = ring(w_ksq, sq);
            out[i] = out[i] - 1;
        }
        proof {
            let n = (s + 1) as nat;
            assert forall|i: int| 0 <= i < 6 implies #[trigger] out[i] == near(w_passers, b_ksq.at(), i, n) - near(
                b_passers,
                w_ksq.at(),
                i,
                n,
            ) && -n <= out[i] <= n by {
                let w = |t: int| w_passers.has(t) && history::clamped(chebyshev(b_ksq.at(), t), 1, 6) == i + 1;
                let k = |t: int| b_passers.has(t) && history::clamped(chebyshev(w_ksq.at(), t), 1, 6) == i + 1;
                assert(out0[i] == near(w_passers, b_ksq.at(), i, s as nat) - near(b_passers, w_ksq.at(), i, s as nat));
                assert(census::tally(w, n) == census::tally(w, s as nat) + (if w(s as int) {
                    1int
                } else {
                    0int
                }));
                assert(census::tally(k, n) == census::tally(k, s as nat) + (if k(s as int) {
                    1int
                } else {
                    0int
                }));
                assert(out1[i] == out0[i] + (if w(s as int) {
                    1int
                } else {
                    0int
                }));
                census::lemma_tally_bounds(w, n);
                census::lemma_tally_bounds(k, n);
            }
        }
        s = s + 1;
    }
    out
}

/// The slot of a distance.
fn ring(a: Square, b: Square) -> (i: usize)
    requires
        a.ok(),
        b.ok(),
    ensures
        i + 1 == history::clamped(chebyshev(a.at(), b.at()), 1, 6),
        i < 6,
{
    let d: u8 = chebyshev_distance(a, b);
    if d < 1 {
        0
    } else if d > 6 {
        5
    } else {
        (d - 1) as usize
    }
}

/// Six features weighed.
pub open spec fn weighed(w: Seq<i32>, f: Seq<i32>) -> int {
    w[0] * f[0] + w[1] * f[1] + w[2] * f[2] + w[3] * f[3] + w[4] * f[4] + w[5] * f[5]
}

fn dot(w: &[i32; 6], f: &[i32; 6]) -> (r: i32)
    requires
        forall|i: int| 0 <= i < 6 ==> -400 <= #[trigger] w[i] <= 400,
        forall|i: int| 0 <= i < 6 ==> -64 <= #[trigger] f[i] <= 64,
    ensures
        r == weighed(w@, f@),
        -160_000 <= r <= 160_000,
{
    proof {
        mobility::lemma_product(w[0] as int, f[0] as int, 400, 64);
        mobility::lemma_product(w[1] as int, f[1] as int, 400, 64);
        mobility::lemma_product(w[2] as int, f[2] as int, 400, 64);
        mobility::lemma_product(w[3] as int, f[3] as int, 400, 64);
        mobility::lemma_product(w[4] as int, f[4] as int, 400, 64);
        mobility::lemma_product(w[5] as int, f[5] as int, 400, 64);
    }
    w[0] * f[0] + w[1] * f[1] + w[2] * f[2] + w[3] * f[3] + w[4] * f[4] + w[5] * f[5]
}

/// The bonus terms that have one weight, for the middlegame (0) or the endgame (1).
pub open spec fn scalar_bonus(f: SharedFeatures, phase: int) -> int {
    TEMPO[phase] * f.tempo + BISHOP_PAIR[phase] * f.bishop_pair_diff + ROOK_OPEN[phase] * f.rook_open_diff
        + MINOR_BEHIND_PAWN[phase] * f.minor_behind_pawn_diff + DOUBLED_PAWN[phase] * f.doubled_pawn_diff
        + ISOLATED_PAWN[phase] * f.isolated_pawn_diff + BACKWARD_PAWN[phase] * f.backward_pawn_diff
}

/// All bonus terms in the middlegame.
pub open spec fn bonus_mg(f: SharedFeatures) -> int {
    scalar_bonus(f, 0) + weighed(PHALANX_MG@, f.phalanx@) + weighed(DEFENDED_PAWN_MG@, f.defended_pawn@) + weighed(
        PASSED_PAWN_MG@,
        f.passed_pawn@,
    ) + weighed(ENEMY_KING_DIST_MG@, f.enemy_king_dist@)
}

/// All bonus terms in the endgame.
pub open spec fn bonus_eg(f: SharedFeatures) -> int {
    scalar_bonus(f, 1) + weighed(PHALANX_EG@, f.phalanx@) + weighed(DEFENDED_PAWN_EG@, f.defended_pawn@) + weighed(
        PASSED_PAWN_EG@,
        f.passed_pawn@,
    ) + weighed(ENEMY_KING_DIST_EG@, f.enemy_king_dist@)
}

/// What the mobility term reads.
#[derive(Clone, Copy, Debug)]
pub struct MobilityInput {
    /// Mobility, battery, threats and threats through a man, white less black.
    pub diff: [i32; 4],
    pub openness: i32,
}

/// What the king safety term reads, side by side: each is scored into its own bucket.
#[derive(Clone, Copy, Debug)]
pub struct KingSafetyInput {
    pub us: mobility::SafetyMetrics,
    pub them: mobility::SafetyMetrics,
}

/// The mobility term.
pub struct MobilityTerm;

/// The king safety term.
pub struct KingSafetyTerm;

/// The term for lines that reach a king's surroundings through a man.
pub struct XrayTerm;

/// The terms weighed twice, for the middlegame and the endgame.
pub struct BonusTerms;

impl SharedFeatures {
    /// What the mobility term reads.
    pub fn mobility_input(&self) -> (r: MobilityInput)
        requires
            self.small(),
        ensures
            r.openness == self.openness,
            r.diff[0] == self.spatial.metrics_us.mobility - self.spatial.metrics_them.mobility,
            r.diff[1] == self.spatial.metrics_us.shadow_mobility - self.spatial.metrics_them.shadow_mobility,
            r.diff[2] == self.spatial.metrics_us.threats - self.spatial.metrics_them.threats,
            r.diff[3] == self.spatial.metrics_us.shadow_threats - self.spatial.metrics_them.shadow_threats,
    {
        MobilityInput { diff: self.spatial.metrics_us.diff(&self.spatial.metrics_them), openness: self.openness }
    }

    /// What the king safety term reads.
    pub fn king_safety_input(&self) -> (r: KingSafetyInput)
        ensures
            r.us == self.spatial.safety_us,
            r.them == self.spatial.safety_them,
    {
        KingSafetyInput { us: self.spatial.safety_us, them: self.spatial.safety_them }
    }
}

impl MobilityTerm {
    /// Fills the mobility bucket.
    pub fn apply(features: &SharedFeatures, phase: i32, acc: &mut Accumulators)
        requires
            features.small(),
            0 <= phase <= TOTAL_PHASE,
        ensures
            *final(acc) == (Accumulators {
                mobility: mobility::mobility_score(
                    features.spatial.metrics_us,
                    features.spatial.metrics_them,
                    features.openness as int,
                    phase as int,
                ) as i32,
                ..*old(acc)
            }),
            final(acc).mobility == mobility::mobility_score(
                features.spatial.metrics_us,
                features.spatial.metrics_them,
                features.openness as int,
                phase as int,
            ),
            -300_000 <= final(acc).mobility <= 300_000,
    {
        acc.mobility = Mobility::evaluate_score_diff(
            &features.spatial.metrics_us,
            &features.spatial.metrics_them,
            features.openness,
            phase,
        );
    }
}

impl KingSafetyTerm {
    /// Fills the shelter and the danger buckets.
    pub fn apply(features: &SharedFeatures, acc: &mut Accumulators)
        requires
            features.small(),
        ensures
            final(acc).safety_us == features.spatial.safety_us.covered(),
            final(acc).safety_them == features.spatial.safety_them.covered(),
            final(acc).danger_us == features.spatial.safety_us.pressed(),
            final(acc).danger_them == features.spatial.safety_them.pressed(),
            *final(acc) == (Accumulators {
                safety_us: final(acc).safety_us,
                safety_them: final(acc).safety_them,
                danger_us: final(acc).danger_us,
                danger_them: final(acc).danger_them,
                ..*old(acc)
            }),
            -2000 <= final(acc).safety_us <= 2000,
            -2000 <= final(acc).safety_them <= 2000,
            0 <= final(acc).danger_us <= 4000,
            0 <= final(acc).danger_them <= 4000,
    {
        let us = features.spatial.safety_us;
        let them = features.spatial.safety_them;
        acc.safety_us = us.shelter();
        acc.safety_them = them.shelter();
        acc.danger_us = us.pressure();
        acc.danger_them = them.pressure();
    }
}

impl XrayTerm {
    /// Fills the x-ray bucket.
    pub fn apply(features: &SharedFeatures, acc: &mut Accumulators)
        requires
            features.small(),
        ensures
            final(acc).xray == XRAY[0] * features.xray_ortho,
            *final(acc) == (Accumulators { xray: final(acc).xray, ..*old(acc) }),
    {
        acc.xray = XRAY[0] * features.xray_ortho;
    }
}

impl BonusTerms {
    /// Fills the two bonus buckets.
    pub fn apply(features: &SharedFeatures, acc: &mut Accumulators)
        requires
            features.small(),
        ensures
            final(acc).bonus_mg == bonus_mg(*features),
            final(acc).bonus_eg == bonus_eg(*features),
            *final(acc) == (Accumulators { bonus_mg: final(acc).bonus_mg, bonus_eg: final(acc).bonus_eg, ..*old(acc) }),
            -1_000_000 <= final(acc).bonus_mg <= 1_000_000,
            -1_000_000 <= final(acc).bonus_eg <= 1_000_000,
    {
        acc.bonus_mg = BonusTerms::single_mg(features) + BonusTerms::ranked_mg(features);
        acc.bonus_eg = BonusTerms::single_eg(features) + BonusTerms::ranked_eg(features);
    }

    fn single_mg(f: &SharedFeatures) -> (r: i32)
        requires
            f.small(),
        ensures
            r == scalar_bonus(*f, 0),
            -100_000 <= r <= 100_000,
    {
        TEMPO[0] * f.tempo + BISHOP_PAIR[0] * f.bishop_pair_diff + ROOK_OPEN[0] * f.rook_open_diff + MINOR_BEHIND_PAWN[0]
            * f.minor_behind_pawn_diff + DOUBLED_PAWN[0] * f.doubled_pawn_diff + ISOLATED_PAWN[0] * f.isolated_pawn_diff
            + BACKWARD_PAWN[0] * f.backward_pawn_diff
    }

    fn single_eg(f: &SharedFeatures) -> (r: i32)
        requires
            f.small(),
        ensures
            r == scalar_bonus(*f, 1),
            -100_000 <= r <= 100_000,
    {
        TEMPO[1] * f.tempo + BISHOP_PAIR[1] * f.bishop_pair_diff + ROOK_OPEN[1] * f.rook_open_diff + MINOR_BEHIND_PAWN[1]
            * f.minor_behind_pawn_diff + DOUBLED_PAWN[1] * f.doubled_pawn_diff + ISOLATED_PAWN[1] * f.isolated_pawn_diff
            + BACKWARD_PAWN[1] * f.backward_pawn_diff
    }

    fn ranked_mg(f: &SharedFeatures) -> (r: i32)
        requires
            f.small(),
        ensures
            r == weighed(PHALANX_MG@, f.phalanx@) + weighed(DEFENDED_PAWN_MG@, f.defended_pawn@) + weighed(
                PASSED_PAWN_MG@,
                f.passed_pawn@,
            ) + weighed(ENEMY_KING_DIST_MG@, f.enemy_king_dist@),
            -640_000 <= r <= 640_000,
    {
        let phalanx = PHALANX_MG;
        let defended = DEFENDED_PAWN_MG;
        let passed = PASSED_PAWN_MG;
        let dist = ENEMY_KING_DIST_MG;
        let x1: i32 = dot(&phalanx, &f.phalanx);
        let x2: i32 = dot(&defended, &f.defended_pawn);
        let x3: i32 = dot(&passed, &f.passed_pawn);
        let x4: i32 = dot(&dist, &f.enemy_king_dist);
        x1 + x2 + x3 + x4
    }

    fn ranked_eg(f: &SharedFeatures) -> (r: i32)
        requires
            f.small(),
        ensures
            r == weighed(PHALANX_EG@, f.phalanx@) + weighed(DEFENDED_PAWN_EG@, f.defended_pawn@) + weighed(
                PASSED_PAWN_EG@,
                f.passed_pawn@,
            ) + weighed(ENEMY_KING_DIST_EG@, f.enemy_king_dist@),
            -640_000 <= r <= 640_000,
    {
        let phalanx = PHALANX_EG;
        let defended = DEFENDED_PAWN_EG;
        let passed = PASSED_PAWN_EG;
        let dist = ENEMY_KING_DIST_EG;
        let x1: i32 = dot(&phalanx, &f.phalanx);
        let x2: i32 = dot(&defended, &f.defended_pawn);
        let x3: i32 = dot(&passed, &f.passed_pawn);
        let x4: i32 = dot(&dist, &f.enemy_king_dist);
        x1 + x2 + x3 + x4
    }
}

/// Whether `a` holds the buckets of features `f`, with the piece-square sums of `acc`.
pub open spec fn filled(a: Accumulators, acc: Accumulator, phase: int, f: SharedFeatures) -> bool {
    &&& a.mg_eg == mobility::tapered(acc.mg as int, acc.eg as int, phase)
    &&& a.mobility == mobility::mobility_score(
        f.spatial.metrics_us,
        f.spatial.metrics_them,
        f.openness as int,
        phase,
    )
    &&& a.bonus_mg == bonus_mg(f)
    &&& a.bonus_eg == bonus_eg(f)
    &&& a.safety_us == f.spatial.safety_us.covered()
    &&& a.safety_them == f.spatial.safety_them.covered()
    &&& a.danger_us == f.spatial.safety_us.pressed()
    &&& a.danger_them == f.spatial.safety_them.pressed()
    &&& a.xray == XRAY[0] * f.xray_ortho
}

/// The score of features `f`, seen from white.
pub open spec fn white_score(acc: Accumulator, phase: int, f: SharedFeatures) -> int {
    let safety_diff = f.spatial.safety_us.covered() - f.spatial.safety_them.covered() - (combiner::curved(
        f.spatial.safety_us.pressed(),
        KING_DANGER[0] as int,
    ) - combiner::curved(f.spatial.safety_them.pressed(), KING_DANGER[0] as int)) + XRAY[0] * f.xray_ortho;
    mobility::tapered(acc.mg as int, acc.eg as int, phase) + mobility::mobility_score(
        f.spatial.metrics_us,
        f.spatial.metrics_them,
        f.openness as int,
        phase,
    ) + mobility::tapered(bonus_mg(f), bonus_eg(f), phase) + mobility::tapered(safety_diff, 0, phase)
}

/// A score seen from white, seen from side `c`.
pub open spec fn seen_from(c: Color, score: int) -> int {
    match c {
        Color::White => score,
        Color::Black => -score,
    }
}

/// The piece-square sums stay in range.
pub open spec fn in_range(acc: Accumulator) -> bool {
    -5_000_000 <= acc.mg <= 5_000_000 && -5_000_000 <= acc.eg <= 5_000_000
}

/// The piece-square sums of a board stay in range.
pub proof fn lemma_in_range(acc: Accumulator, b: Seq<Cell>)
    requires
        acc.of(b),
        b.len() == 64,
    ensures
        in_range(acc),
{
    psq::lemma_sum_bound(Lane::Mg, b, 64);
    psq::lemma_sum_bound(Lane::Eg, b, 64);
}

/// Fills the buckets: the piece-square sums, then every term.
pub fn fill_accumulators(acc: &Accumulator, phase: i32, features: &SharedFeatures) -> (a: Accumulators)
    requires
        in_range(*acc),
        0 <= phase <= TOTAL_PHASE,
        features.small(),
    ensures
        filled(a, *acc, phase as int, *features),
        a.small(),
{
    proof {
        mobility::lemma_tapered(acc.mg as int, acc.eg as int, phase as int, 5_000_000);
    }
    let mut a = Accumulators {
        mg_eg: taper(acc.mg, acc.eg, phase),
        mobility: 0,
        bonus_mg: 0,
        bonus_eg: 0,
        safety_us: 0,
        safety_them: 0,
        danger_us: 0,
        danger_them: 0,
        xray: 0,
    };
    MobilityTerm::apply(features, phase, &mut a);
    KingSafetyTerm::apply(features, &mut a);
    XrayTerm::apply(features, &mut a);
    BonusTerms::apply(features, &mut a);
    a
}

/// The phase of the game, from none of the pieces to all of them.
pub fn extract_phase(acc: &Accumulator) -> (r: i32)
    ensures
        r == history::clamped(acc.phase as int, 0, TOTAL_PHASE as int),
        0 <= r <= TOTAL_PHASE,
{
    if acc.phase < 0 {
        0
    } else if acc.phase > TOTAL_PHASE {
        TOTAL_PHASE
    } else {
        acc.phase
    }
}

/// The score of a position with features measured already, seen from the side to move.
pub fn evaluate_features(board: &Position, acc: &Accumulator, phase: i32, features: &SharedFeatures) -> (r: i32)
    requires
        in_range(*acc),
        0 <= phase <= TOTAL_PHASE,
        features.small(),
    ensures
        r == seen_from(board.stm, white_score(*acc, phase as int, *features)),
        -7_000_000 <= r <= 7_000_000,
{
    let buckets = fill_accumulators(acc, phase, features);
    let params = CombinerParams::from_const();
    let score: i32 = LinearCombiner::forward(&buckets, phase, &params);
    match board.stm {
        Color::White => score,
        Color::Black => -score,
    }
}

/// The score of a position, seen from the side to move.
pub fn evaluate(board: &Position, acc: &Accumulator) -> (r: i32)
    requires
        board.wf(),
        acc.of(board.board()),
    ensures
        exists|f: SharedFeatures| #[trigger]
            f.of(*board) && r == seen_from(
                board.stm,
                white_score(*acc, history::clamped(acc.phase as int, 0, TOTAL_PHASE as int), f),
            ),
{
    proof {
        lemma_in_range(*acc, board.board());
    }
    let phase: i32 = extract_phase(acc);
    let features = SharedFeatures::compute(board);
    evaluate_features(board, acc, phase, &features)
}

/// `r` is the score of a position whose pawn features are `pawn`, seen from the side to
/// move.
#[verifier::opaque]
pub open spec fn scored(board: Position, acc: Accumulator, pawn: PawnFeatures, r: int) -> bool {
    exists|f: SharedFeatures|
        f.carries(pawn) && #[trigger] f.measures(board, pawn.w_passers, pawn.b_passers) && r == seen_from(
            board.stm,
            white_score(acc, history::clamped(acc.phase as int, 0, TOTAL_PHASE as int), f),
        )
}

/// The score of a position with pawn features known already, seen from the side to move.
pub fn evaluate_with_pawn(board: &Position, acc: &Accumulator, pawn: &PawnFeatures) -> (r: i32)
    requires
        board.wf(),
        acc.of(board.board()),
        pawn.small(),
    ensures
        scored(*board, *acc, *pawn, r as int),
        -7_000_000 <= r <= 7_000_000,
{
    proof {
        lemma_in_range(*acc, board.board());
        reveal(scored);
    }
    let phase: i32 = extract_phase(acc);
    let features = SharedFeatures::with_pawn(board, pawn, None);
    evaluate_features(board, acc, phase, &features)
}

/// A score bucket by bucket.
#[derive(Clone, Copy, Debug, PartialEq, Eq, Structural)]
pub struct DetailedEval {
    pub psqt: i32,
    pub mobility: i32,
    pub bonus: i32,
    pub safety: i32,
    pub total: i32,
}

impl DetailedEval {
    /// Whether this is what features `f` and their buckets `a` come to, seen from side `c`.
    pub open spec fn shows(self, a: Accumulators, acc: Accumulator, phase: int, f: SharedFeatures, c: Color) -> bool {
        &&& filled(a, acc, phase, f)
        &&& self.psqt == seen_from(c, a.mg_eg as int)
        &&& self.mobility == seen_from(c, a.mobility as int)
        &&& self.bonus == seen_from(c, a.bonus(phase))
        &&& self.safety == seen_from(c, a.safety(phase, KING_DANGER[0] as int))
        &&& self.total == seen_from(c, white_score(acc, phase, f))
    }
}

/// The buckets of features measured already, seen from side `c`.
fn detail(acc: &Accumulator, phase: i32, features: &SharedFeatures, c: Color) -> (d: DetailedEval)
    requires
        in_range(*acc),
        0 <= phase <= TOTAL_PHASE,
        features.small(),
    ensures
        exists|a: Accumulators| d.shows(a, *acc, phase as int, *features, c),
        d.total == d.psqt + d.mobility + d.bonus + d.safety,
{
    let buckets = fill_accumulators(acc, phase, features);
    let params = CombinerParams::from_const();
    let bonus: i32 = taper(buckets.bonus_mg, buckets.bonus_eg, phase);
    let safety: i32 = safety_block(&buckets, phase, &params);
    let total: i32 = LinearCombiner::forward(&buckets, phase, &params);
    let d = match c {
        Color::White => DetailedEval { psqt: buckets.mg_eg, mobility: buckets.mobility, bonus, safety, total },
        Color::Black => DetailedEval {
            psqt: -buckets.mg_eg,
            mobility: -buckets.mobility,
            bonus: -bonus,
            safety: -safety,
            total: -total,
        },
    };
    assert(d.shows(buckets, *acc, phase as int, *features, c));
    d
}

/// Whether `d` is the score of a position bucket by bucket.
pub open spec fn explains(board: Position, acc: Accumulator, d: DetailedEval) -> bool {
    exists|f: SharedFeatures, a: Accumulators| #[trigger]
        f.of(board) && #[trigger] d.shows(
            a,
            acc,
            history::clamped(acc.phase as int, 0, TOTAL_PHASE as int),
            f,
            board.stm,
        )
}

/// The score of a position bucket by bucket, seen from the side to move.
pub fn detailed_eval(board: &Position, acc: &Accumulator) -> (d: DetailedEval)
    requires
        board.wf(),
        acc.of(board.board()),
    ensures
        explains(*board, *acc, d),
        d.total == d.psqt + d.mobility + d.bonus + d.safety,
{
    proof {
        lemma_in_range(*acc, board.board());
    }
    let phase: i32 = extract_phase(acc);
    let features = SharedFeatures::compute(board);
    detail(acc, phase, &features, board.stm)
}

/// The piece-square sums alone, tapered and seen from the side to move.
pub fn evaluate_psqt(board: &Position, acc: &Accumulator, phase: i32) -> (r: i32)
    requires
        i32::MIN < mobility::tapered(acc.mg as int, acc.eg as int, phase as int) <= i32::MAX,
    ensures
        r == seen_from(board.stm, mobility::tapered(acc.mg as int, acc.eg as int, phase as int)),
{
    let mg: i128 = acc.mg as i128;
    let eg: i128 = acc.eg as i128;
    let p: i128 = phase as i128;
    let rest: i128 = TOTAL_PHASE as i128 - p;
    proof {
        mobility::lemma_product(mg as int, p as int, 0x1_0000_0000, 0x1_0000_0000);
        mobility::lemma_product(eg as int, rest as int, 0x1_0000_0000, 0x1_0000_0000);
    }
    let sum: i128 = mg * p + eg * rest;
    let score: i32 = (sum / TOTAL_PHASE as i128) as i32;
    match board.stm {
        Color::White => score,
        Color::Black => -score,
    }
}

/// How many men of kind `pt` stand on the board.
pub open spec fn piece_count(b: Seq<Cell>, pt: PieceType) -> int {
    census::tally(|s: int| rules::occupied(b, s) && b[s]->0.kind == pt, 64)
}

fn count_of(board: &Position, pt: PieceType) -> (n: i32)
    requires
        board.mirrored(),
        pt != PieceType::Empty,
    ensures
        n == piece_count(board.board(), pt),
        0 <= n <= 64,
{
    let ghost b = board.board();
    let men = board.role(pt);
    proof {
        census::lemma_count(men, |s: int| rules::occupied(b, s) && b[s]->0.kind == pt);
    }
    men.popcount() as i32
}

/// What the men on the board make uncertain.
pub open spec fn volatility(b: Seq<Cell>, sp: SearchParams) -> int {
    piece_count(b, PieceType::Pawn) * sp.vol_pawn() + piece_count(b, PieceType::Knight) * sp.vol_knight() + piece_count(
        b,
        PieceType::Bishop,
    ) * sp.vol_bishop() + piece_count(b, PieceType::Rook) * sp.vol_rook() + piece_count(b, PieceType::Queen) * sp.vol_queen()
        + piece_count(b, PieceType::King) * sp.vol_king()
}

/// How far the piece-square sums alone may be trusted: more men and an earlier phase widen
/// the margin. A divisor below one counts as one.
pub open spec fn lazy_margin(b: Seq<Cell>, phase: int, sp: SearchParams) -> int {
    sp.qs_lazy_margin() + history::quotient(volatility(b, sp) * phase, legal::greater(sp.qs_lazy_divisor() as int, 1))
}

/// At the end of the game the margin is the one set, and it grows with the phase, as long as no
/// man takes from it.
pub proof fn law_the_lazy_margin_grows_with_the_phase(b: Seq<Cell>, early: int, later: int, sp: SearchParams)
    requires
        0 <= early <= later,
        sp.vol_pawn() >= 0,
        sp.vol_knight() >= 0,
        sp.vol_bishop() >= 0,
        sp.vol_rook() >= 0,
        sp.vol_queen() >= 0,
        sp.vol_king() >= 0,
    ensures
        lazy_margin(b, 0, sp) == sp.qs_lazy_margin(),
        lazy_margin(b, early, sp) <= lazy_margin(b, later, sp),
{
    let v = volatility(b, sp);
    let d = legal::greater(sp.qs_lazy_divisor() as int, 1);
    lemma_piece_counts(b);
    let n1 = piece_count(b, PieceType::Pawn);
    let n2 = piece_count(b, PieceType::Knight);
    let n3 = piece_count(b, PieceType::Bishop);
    let n4 = piece_count(b, PieceType::Rook);
    let n5 = piece_count(b, PieceType::Queen);
    let n6 = piece_count(b, PieceType::King);
    lemma_nonnegative_product(n1, sp.vol_pawn() as int);
    lemma_nonnegative_product(n2, sp.vol_knight() as int);
    lemma_nonnegative_product(n3, sp.vol_bishop() as int);
    lemma_nonnegative_product(n4, sp.vol_rook() as int);
    lemma_nonnegative_product(n5, sp.vol_queen() as int);
    lemma_nonnegative_product(n6, sp.vol_king() as int);
    assert(v * 0 == 0);
    assert(0int / d == 0) by (nonlinear_arith)
        requires
            d >= 1,
    ;
    assert(0 <= v * early <= v * later) by (nonlinear_arith)
        requires
            v >= 0,
            0 <= early <= later,
    ;
    vstd::arithmetic::div_mod::lemma_div_is_ordered(v * early, v * later, d);
}

/// A divisor of the lazy margin that is not positive counts as one.
pub proof fn law_a_lazy_divisor_is_at_least_one(b: Seq<Cell>, phase: int, sp: SearchParams, tp: SearchParams)
    requires
        sp.qs_lazy_divisor() <= 0,
        tp.qs_lazy_divisor() == 1,
        forall|i: int| 0 <= i < sp.values@.len() && i != 4 ==> #[trigger] tp.values@[i] == sp.values@[i],
    ensures
        lazy_margin(b, phase, sp) == lazy_margin(b, phase, tp),
{
    assert(tp.values@[3] == sp.values@[3]);
    assert(tp.values@[5] == sp.values@[5] && tp.values@[6] == sp.values@[6] && tp.values@[7] == sp.values@[7]);
    assert(tp.values@[8] == sp.values@[8] && tp.values@[9] == sp.values@[9] && tp.values@[10] == sp.values@[10]);
}

/// A sound set of parameters keeps the margin small.
pub proof fn lemma_lazy_margin(board: Position, phase: int, sp: SearchParams)
    requires
        board.mirrored(),
        0 <= phase <= TOTAL_PHASE,
        sp.wf(),
    ensures
        0 <= lazy_margin(board.board(), phase, sp) <= 400_000,
{
    let b = board.board();
    lemma_piece_counts(b);
    lemma_count_product(piece_count(b, PieceType::Pawn), sp.vol_pawn() as int);
    lemma_count_product(piece_count(b, PieceType::Knight), sp.vol_knight() as int);
    lemma_count_product(piece_count(b, PieceType::Bishop), sp.vol_bishop() as int);
    lemma_count_product(piece_count(b, PieceType::Rook), sp.vol_rook() as int);
    lemma_count_product(piece_count(b, PieceType::Queen), sp.vol_queen() as int);
    lemma_count_product(piece_count(b, PieceType::King), sp.vol_king() as int);
    let v = volatility(b, sp);
    let d = sp.qs_lazy_divisor() as int;
    assert(0 <= v * phase <= 11520 * 24) by (nonlinear_arith)
        requires
            0 <= v <= 11520,
            0 <= phase <= 24,
    ;
    let x = v * phase;
    assert(0 <= x / d <= x) by (nonlinear_arith)
        requires
            d >= 1,
            x >= 0,
    ;
}

/// A count of men is no more than the squares.
proof fn lemma_piece_counts(b: Seq<Cell>)
    ensures
        forall|pt: PieceType| 0 <= #[trigger] piece_count(b, pt) <= 64,
{
    assert forall|pt: PieceType| 0 <= #[trigger] piece_count(b, pt) <= 64 by {
        census::lemma_tally_bounds(|s: int| rules::occupied(b, s) && b[s]->0.kind == pt, 64);
    }
}

/// [`lazy_margin`], where it fits into its word.
pub fn lazy_eval_margin(board: &Position, phase: i32, params: &SearchParams) -> (r: i32)
    requires
        board.mirrored(),
        i32::MIN <= lazy_margin(board.board(), phase as int, *params) <= i32::MAX,
    ensures
        r == lazy_margin(board.board(), phase as int, *params),
{
    let n1: i128 = count_of(board, PieceType::Pawn) as i128;
    let n2: i128 = count_of(board, PieceType::Knight) as i128;
    let n3: i128 = count_of(board, PieceType::Bishop) as i128;
    let n4: i128 = count_of(board, PieceType::Rook) as i128;
    let n5: i128 = count_of(board, PieceType::Queen) as i128;
    let n6: i128 = count_of(board, PieceType::King) as i128;
    let v1: i128 = params.values[5] as i128;
    let v2: i128 = params.values[6] as i128;
    let v3: i128 = params.values[7] as i128;
    let v4: i128 = params.values[8] as i128;
    let v5: i128 = params.values[9] as i128;
    let v6: i128 = params.values[10] as i128;
    proof {
        mobility::lemma_product(n1 as int, v1 as int, 64, 0x8000_0000);
        mobility::lemma_product(n2 as int, v2 as int, 64, 0x8000_0000);
        mobility::lemma_product(n3 as int, v3 as int, 64, 0x8000_0000);
        mobility::lemma_product(n4 as int, v4 as int, 64, 0x8000_0000);
        mobility::lemma_product(n5 as int, v5 as int, 64, 0x8000_0000);
        mobility::lemma_product(n6 as int, v6 as int, 64, 0x8000_0000);
    }
    let volatility: i128 = n1 * v1 + n2 * v2 + n3 * v3 + n4 * v4 + n5 * v5 + n6 * v6;
    let d: i32 = params.values[4];
    let div: i128 = if d > 1 {
        d as i128
    } else {
        1
    };
    let p: i128 = phase as i128;
    proof {
        mobility::lemma_product(volatility as int, p as int, 0x100_0000_0000, 0x8000_0000);
        history::lemma_quotient((volatility * p) as int, div as int);
    }
    let x: i128 = params.values[3] as i128 + volatility * p / div;
    x as i32
}

proof fn lemma_nonnegative_product(n: int, v: int)
    requires
        0 <= n,
        0 <= v,
    ensures
        0 <= n * v,
{
    assert(0 <= n * v) by (nonlinear_arith)
        requires
            0 <= n,
            0 <= v,
    ;
}

proof fn lemma_count_product(n: int, v: int)
    requires
        0 <= n <= 64,
        0 <= v <= 30,
    ensures
        0 <= n * v <= 1920,
{
    assert(0 <= n * v <= 1920) by (nonlinear_arith)
        requires
            0 <= n <= 64,
            0 <= v <= 30,
    ;
}

/// The features of a position are settled: two measurements agree on every score.
pub proof fn law_features_settle_the_score(p: Position, acc: Accumulator, phase: int, f: SharedFeatures, g: SharedFeatures)
    requires
        f.of(p),
        g.of(p),
    ensures
        white_score(acc, phase, f) == white_score(acc, phase, g),
{
    let b = p.board();
    let x = choose|x: PawnFeatures| #[trigger]
        x.of(b) && f.carries(x) && f.measures(p, x.w_passers, x.b_passers);
    let y = choose|y: PawnFeatures| #[trigger]
        y.of(b) && g.carries(y) && g.measures(p, y.w_passers, y.b_passers);
    assert(x.w_passers == y.w_passers) by {
        Bitboard::lemma_ext(x.w_passers, y.w_passers);
    }
    assert(x.b_passers == y.b_passers) by {
        Bitboard::lemma_ext(x.b_passers, y.b_passers);
    }
    assert(f.passed_pawn@ =~= g.passed_pawn@);
    assert(f.phalanx@ =~= g.phalanx@);
    assert(f.defended_pawn@ =~= g.defended_pawn@);
    assert(f.enemy_king_dist@ =~= g.enemy_king_dist@);
    lemma_side_settled(p, Color::White, f.spatial.metrics_us, g.spatial.metrics_us);
    lemma_side_settled(p, Color::Black, f.spatial.metrics_them, g.spatial.metrics_them);
}

proof fn lemma_side_settled(p: Position, c: Color, f: mobility::SideMetrics, g: mobility::SideMetrics)
    requires
        f.of(p, c),
        g.of(p, c),
    ensures
        f == g,
{
    let b = p.board();
    let x = choose|x: Bitboard| #[trigger]
        mobility::safe_area(b, c, x) && f.mobility == spatial::mobility_below(b, c, x, 64);
    let y = choose|y: Bitboard| #[trigger]
        mobility::safe_area(b, c, y) && g.mobility == spatial::mobility_below(b, c, y, 64);
    Bitboard::lemma_ext(x, y);
}

/// A position has one set of features.
pub proof fn law_features_are_settled(p: Position, f: SharedFeatures, g: SharedFeatures)
    requires
        f.of(p),
        g.of(p),
    ensures
        f.openness == g.openness,
        f.spatial == g.spatial,
        f.xray_ortho == g.xray_ortho,
        f.bishop_pair_diff == g.bishop_pair_diff,
        f.rook_open_diff == g.rook_open_diff,
        f.passed_pawn@ == g.passed_pawn@,
        f.enemy_king_dist@ == g.enemy_king_dist@,
        f.doubled_pawn_diff == g.doubled_pawn_diff,
        f.isolated_pawn_diff == g.isolated_pawn_diff,
        f.phalanx@ == g.phalanx@,
        f.defended_pawn@ == g.defended_pawn@,
        f.backward_pawn_diff == g.backward_pawn_diff,
        f.tempo == g.tempo,
        f.minor_behind_pawn_diff == g.minor_behind_pawn_diff,
{
    let b = p.board();
    let x = choose|x: PawnFeatures| #[trigger]
        x.of(b) && f.carries(x) && f.measures(p, x.w_passers, x.b_passers);
    let y = choose|y: PawnFeatures| #[trigger]
        y.of(b) && g.carries(y) && g.measures(p, y.w_passers, y.b_passers);
    pawns::law_pawn_features_are_settled(b, x, y);
    assert(f.enemy_king_dist@ =~= g.enemy_king_dist@);
    lemma_side_settled(p, Color::White, f.spatial.metrics_us, g.spatial.metrics_us);
    lemma_side_settled(p, Color::Black, f.spatial.metrics_them, g.spatial.metrics_them);
}

/// Every square of a set lies in one band around a king.
proof fn lemma_bands_add_up(bb: Bitboard, k: int, n: nat)
    requires
        n <= 64,
    ensures
        near(bb, k, 0, n) + near(bb, k, 1, n) + near(bb, k, 2, n) + near(bb, k, 3, n) + near(bb, k, 4, n) + near(bb, k, 5, n)
            == census::tally(|s: int| bb.has(s), n),
    decreases n,
{
    if n > 0 {
        lemma_bands_add_up(bb, k, (n - 1) as nat);
    }
}

/// Every passed pawn falls into one bucket, by rank and by the distance of the enemy king:
/// both add up to white's passed pawns less black's. The pair of bishops counts once at most,
/// and the turn is one side's.
pub proof fn law_passed_pawns_fall_into_one_bucket(p: Position, f: SharedFeatures)
    requires
        p.wf(),
        f.of(p),
    ensures
        ({
            let d = f.enemy_king_dist;
            let r = f.passed_pawn;
            let n = pawns::lead(
                |s: int| pawns::passed(p.board(), Color::White, s),
                |s: int| pawns::passed(p.board(), Color::Black, s),
            );
            &&& d[0] + d[1] + d[2] + d[3] + d[4] + d[5] == n
            &&& r[0] + r[1] + r[2] + r[3] + r[4] + r[5] == n
        }),
        -1 <= f.bishop_pair_diff <= 1,
        f.tempo == (if p.stm == Color::White {
            1int
        } else {
            -1
        }),
{
    let b = p.board();
    let x = choose|x: PawnFeatures| #[trigger]
        x.of(b) && f.carries(x) && f.measures(p, x.w_passers, x.b_passers);
    pawns::law_passed_pawns_add_up(p, x);
    let wk = position::king_of(b, Color::White);
    let bk = position::king_of(b, Color::Black);
    lemma_bands_add_up(x.w_passers, bk, 64);
    lemma_bands_add_up(x.b_passers, wk, 64);
    census::lemma_tally_same(|s: int| x.w_passers.has(s), |s: int| pawns::passed(b, Color::White, s), 64);
    census::lemma_tally_same(|s: int| x.b_passers.has(s), |s: int| pawns::passed(b, Color::Black, s), 64);
    let d = f.enemy_king_dist;
    assert(d[0] == near(x.w_passers, bk, 0, 64) - near(x.b_passers, wk, 0, 64));
    assert(d[1] == near(x.w_passers, bk, 1, 64) - near(x.b_passers, wk, 1, 64));
    assert(d[2] == near(x.w_passers, bk, 2, 64) - near(x.b_passers, wk, 2, 64));
    assert(d[3] == near(x.w_passers, bk, 3, 64) - near(x.b_passers, wk, 3, 64));
    assert(d[4] == near(x.w_passers, bk, 4, 64) - near(x.b_passers, wk, 4, 64));
    assert(d[5] == near(x.w_passers, bk, 5, 64) - near(x.b_passers, wk, 5, 64));
}

/// The piece-square sums are worth to one side what they cost the other, at every phase.
pub proof fn law_sums_turn_with_the_side(c: Color, mg: int, eg: int, phase: int)
    ensures
        seen_from(c.other(), mobility::tapered(mg, eg, phase)) == -seen_from(c, mobility::tapered(mg, eg, phase)),
        mobility::tapered(-mg, -eg, phase) == -mobility::tapered(mg, eg, phase),
{
    assert((-mg) * phase + (-eg) * (TOTAL_PHASE - phase) == -(mg * phase + eg * (TOTAL_PHASE - phase)))
        by (nonlinear_arith);
    let x = mg * phase + eg * (TOTAL_PHASE - phase);
    assert(history::quotient(-x, TOTAL_PHASE as int) == -history::quotient(x, TOTAL_PHASE as int));
}

/// The details of a score add up to what the evaluation says: `d` is what [`detailed_eval`] gives
/// and `r` what [`evaluate`] gives.
pub proof fn law_details_add_up_to_the_evaluation(board: Position, acc: Accumulator, d: DetailedEval, r: int)
    requires
        board.wf(),
        acc.of(board.board()),
        explains(board, acc, d),
        d.total == d.psqt + d.mobility + d.bonus + d.safety,
        exists|f: SharedFeatures| #[trigger]
            f.of(board) && r == seen_from(
                board.stm,
                white_score(acc, history::clamped(acc.phase as int, 0, TOTAL_PHASE as int), f),
            ),
    ensures
        d.total == r,
        r == d.psqt + d.mobility + d.bonus + d.safety,
{
    let phase = history::clamped(acc.phase as int, 0, TOTAL_PHASE as int);
    let (f, a) = choose|f: SharedFeatures, a: Accumulators| #[trigger]
        f.of(board) && #[trigger] d.shows(a, acc, phase, f, board.stm);
    let g = choose|g: SharedFeatures| #[trigger]
        g.of(board) && r == seen_from(board.stm, white_score(acc, phase, g));
    law_features_settle_the_score(board, acc, phase, f, g);
}

/// The features measured with the pawns at hand, by whatever rows, are those measured from
/// scratch: `f` is what [`SharedFeatures::with_pawn`] gives and `g` what
/// [`SharedFeatures::compute`] gives.
pub proof fn law_features_do_not_depend_on_the_rows(p: Position, pawn: PawnFeatures, f: SharedFeatures, g: SharedFeatures)
    requires
        p.wf(),
        pawn.of(p.board()),
        f.carries(pawn),
        f.measures(p, pawn.w_passers, pawn.b_passers),
        g.of(p),
    ensures
        f.openness == g.openness,
        f.spatial == g.spatial,
        f.xray_ortho == g.xray_ortho,
        f.bishop_pair_diff == g.bishop_pair_diff,
        f.rook_open_diff == g.rook_open_diff,
        f.passed_pawn@ == g.passed_pawn@,
        f.enemy_king_dist@ == g.enemy_king_dist@,
        f.doubled_pawn_diff == g.doubled_pawn_diff,
        f.isolated_pawn_diff == g.isolated_pawn_diff,
        f.phalanx@ == g.phalanx@,
        f.defended_pawn@ == g.defended_pawn@,
        f.backward_pawn_diff == g.backward_pawn_diff,
        f.tempo == g.tempo,
        f.minor_behind_pawn_diff == g.minor_behind_pawn_diff,
{
    assert(f.of(p));
    law_features_are_settled(p, f, g);
}

/// The distance of two squares counts king moves: none from a square to itself, one to each
/// neighbour, and never more than one further after a step; along a file, a rank or a diagonal it
/// is the number of squares passed.
pub proof fn law_distance_counts_king_moves(a: int, b: int, c: int)
    requires
        0 <= a < 64,
        0 <= b < 64,
        0 <= c < 64,
    ensures
        chebyshev(a, b) == 0 <==> a == b,
        chebyshev(a, b) == 1 <==> geom::king_step(a, b),
        chebyshev(a, b) == chebyshev(b, a),
        geom::king_step(b, c) ==> chebyshev(a, c) <= chebyshev(a, b) + 1,
        chebyshev(a, b) <= 7,
        a % 8 == b % 8 && a <= b ==> 8 * chebyshev(a, b) == b - a,
        a / 8 == b / 8 && a <= b ==> chebyshev(a, b) == b - a,
{
    if chebyshev(a, b) == 0 {
        geom::lemma_coords(a, b);
    }
}

/// A score is for white what it is against black.
pub proof fn law_scores_turn_with_the_side(score: int)
    ensures
        seen_from(Color::White, score) == score,
        seen_from(Color::Black, score) == -score,
{
}

/// What each single term is worth in the middlegame and in the endgame, over whatever else there
/// is: the move, two bishops, a rook on an open file, a minor behind a pawn, and what weak pawns
/// cost.
pub proof fn law_each_bonus_has_its_worth(a: SharedFeatures, b: SharedFeatures)
    requires
        a.phalanx == b.phalanx,
        a.defended_pawn == b.defended_pawn,
        a.passed_pawn == b.passed_pawn,
        a.enemy_king_dist == b.enemy_king_dist,
    ensures
        bonus_mg(a) - bonus_mg(b) == 32 * (a.tempo - b.tempo) + 39 * (a.bishop_pair_diff - b.bishop_pair_diff) + 40 * (
        a.rook_open_diff - b.rook_open_diff) + 12 * (a.minor_behind_pawn_diff - b.minor_behind_pawn_diff) + (
        a.doubled_pawn_diff - b.doubled_pawn_diff) - 9 * (a.isolated_pawn_diff - b.isolated_pawn_diff) - 7 * (
        a.backward_pawn_diff - b.backward_pawn_diff),
        bonus_eg(a) - bonus_eg(b) == 37 * (a.tempo - b.tempo) + 74 * (a.bishop_pair_diff - b.bishop_pair_diff) + 32 * (
        a.minor_behind_pawn_diff - b.minor_behind_pawn_diff) - 45 * (a.doubled_pawn_diff - b.doubled_pawn_diff) - 12 * (
        a.isolated_pawn_diff - b.isolated_pawn_diff) - 16 * (a.backward_pawn_diff - b.backward_pawn_diff),
{
    lemma_single_terms(a);
    lemma_single_terms(b);
}

proof fn lemma_single_terms(f: SharedFeatures)
    ensures
        scalar_bonus(f, 0) == 32 * f.tempo + 39 * f.bishop_pair_diff + 40 * f.rook_open_diff + 12 * f.minor_behind_pawn_diff
            + f.doubled_pawn_diff - 9 * f.isolated_pawn_diff - 7 * f.backward_pawn_diff,
        scalar_bonus(f, 1) == 37 * f.tempo + 74 * f.bishop_pair_diff + 32 * f.minor_behind_pawn_diff - 45
            * f.doubled_pawn_diff - 12 * f.isolated_pawn_diff - 16 * f.backward_pawn_diff,
{
    assert(TEMPO[0] * f.tempo == 32 * f.tempo && TEMPO[1] * f.tempo == 37 * f.tempo);
    assert(BISHOP_PAIR[0] * f.bishop_pair_diff == 39 * f.bishop_pair_diff);
    assert(BISHOP_PAIR[1] * f.bishop_pair_diff == 74 * f.bishop_pair_diff);
    assert(ROOK_OPEN[0] * f.rook_open_diff == 40 * f.rook_open_diff);
    assert(ROOK_OPEN[1] * f.rook_open_diff == 0);
    assert(MINOR_BEHIND_PAWN[0] * f.minor_behind_pawn_diff == 12 * f.minor_behind_pawn_diff);
    assert(MINOR_BEHIND_PAWN[1] * f.minor_behind_pawn_diff == 32 * f.minor_behind_pawn_diff);
    assert(DOUBLED_PAWN[0] * f.doubled_pawn_diff == f.doubled_pawn_diff);
    assert(DOUBLED_PAWN[1] * f.doubled_pawn_diff == -45 * f.doubled_pawn_diff);
    assert(ISOLATED_PAWN[0] * f.isolated_pawn_diff == -9 * f.isolated_pawn_diff);
    assert(ISOLATED_PAWN[1] * f.isolated_pawn_diff == -12 * f.isolated_pawn_diff);
    assert(BACKWARD_PAWN[0] * f.backward_pawn_diff == -7 * f.backward_pawn_diff);
    assert(BACKWARD_PAWN[1] * f.backward_pawn_diff == -16 * f.backward_pawn_diff);
}

/// What the terms by rank and distance are worth, over whatever else there is, from the second
/// rank to the seventh and from next to the king to six squares away.
pub proof fn law_each_rank_has_its_worth(a: SharedFeatures, b: SharedFeatures)
    requires
        scalar_bonus(a, 0) == scalar_bonus(b, 0),
        scalar_bonus(a, 1) == scalar_bonus(b, 1),
    ensures
        a.phalanx == b.phalanx && a.defended_pawn == b.defended_pawn && a.enemy_king_dist == b.enemy_king_dist ==> {
            let x = a.passed_pawn@;
            let y = b.passed_pawn@;
            &&& bonus_mg(a) - bonus_mg(b) == -6 * (x[0] - y[0]) - 20 * (x[1] - y[1]) - 22 * (x[2] - y[2]) + (x[3] - y[3]) - 3 * (
            x[4] - y[4]) + 52 * (x[5] - y[5])
            &&& bonus_eg(a) - bonus_eg(b) == -56 * (x[0] - y[0]) - 33 * (x[1] - y[1]) + 14 * (x[2] - y[2]) + 67 * (x[3]
                - y[3]) + 161 * (x[4] - y[4]) + 154 * (x[5] - y[5])
        },
        a.phalanx == b.phalanx && a.defended_pawn == b.defended_pawn && a.passed_pawn == b.passed_pawn ==> {
            let x = a.enemy_king_dist@;
            let y = b.enemy_king_dist@;
            &&& bonus_mg(a) - bonus_mg(b) == -111 * (x[0] - y[0]) + 20 * (x[1] - y[1]) + 4 * (x[2] - y[2]) + (x[3] - y[3]) - (
            x[4] - y[4]) - 6 * (x[5] - y[5])
            &&& bonus_eg(a) - bonus_eg(b) == -40 * (x[0] - y[0]) + 11 * (x[1] - y[1]) + 51 * (x[2] - y[2]) + 64 * (x[3]
                - y[3]) + 75 * (x[4] - y[4]) + 83 * (x[5] - y[5])
        },
        a.passed_pawn == b.passed_pawn && a.defended_pawn == b.defended_pawn && a.enemy_king_dist == b.enemy_king_dist ==> {
            let x = a.phalanx@;
            let y = b.phalanx@;
            &&& bonus_mg(a) - bonus_mg(b) == 8 * (x[0] - y[0]) + 14 * (x[1] - y[1]) + 28 * (x[2] - y[2]) + 62 * (x[3] - y[3])
                + 105 * (x[4] - y[4]) - 155 * (x[5] - y[5])
            &&& bonus_eg(a) - bonus_eg(b) == -7 * (x[0] - y[0]) + 2 * (x[1] - y[1]) + 23 * (x[2] - y[2]) + 88 * (x[3] - y[3])
                + 211 * (x[4] - y[4]) + 343 * (x[5] - y[5])
        },
        a.passed_pawn == b.passed_pawn && a.phalanx == b.phalanx && a.enemy_king_dist == b.enemy_king_dist ==> {
            let x = a.defended_pawn@;
            let y = b.defended_pawn@;
            &&& bonus_mg(a) - bonus_mg(b) == 33 * (x[1] - y[1]) + 22 * (x[2] - y[2]) + 20 * (x[3] - y[3]) + 32 * (x[4] - y[4])
                + 156 * (x[5] - y[5])
            &&& bonus_eg(a) - bonus_eg(b) == 17 * (x[1] - y[1]) + 14 * (x[2] - y[2]) + 29 * (x[3] - y[3]) + 62 * (x[4] - y[4])
                + 17 * (x[5] - y[5])
        },
{
}

/// With all pieces on the board a score is the middlegame sum, the mobility, the middlegame bonus
/// and what the kings' safety says; with none it is the endgame sum, the mobility and the endgame
/// bonus.
pub proof fn law_a_score_leads_from_middlegame_to_endgame(acc: Accumulator, f: SharedFeatures)
    ensures
        white_score(acc, 0, f) == acc.eg + mobility::mobility_score(
            f.spatial.metrics_us,
            f.spatial.metrics_them,
            f.openness as int,
            0,
        ) + bonus_eg(f),
        white_score(acc, 24, f) == acc.mg + mobility::mobility_score(
            f.spatial.metrics_us,
            f.spatial.metrics_them,
            f.openness as int,
            24,
        ) + bonus_mg(f) + (f.spatial.safety_us.covered() - f.spatial.safety_us.pressed()) - (f.spatial.safety_them.covered()
            - f.spatial.safety_them.pressed()) + 10 * f.xray_ortho,
{
    let s = f.spatial;
    combiner::law_no_curvature_is_linear(s.safety_us.pressed());
    combiner::law_no_curvature_is_linear(s.safety_them.pressed());
    let diff = s.safety_us.covered() - s.safety_them.covered() - (s.safety_us.pressed() - s.safety_them.pressed()) + XRAY[0]
        * f.xray_ortho;
    mobility::law_the_phase_leads_from_middlegame_to_endgame(acc.mg as int, acc.eg as int, 0);
    mobility::law_the_phase_leads_from_middlegame_to_endgame(bonus_mg(f), bonus_eg(f), 0);
    mobility::law_the_phase_leads_from_middlegame_to_endgame(diff, 0, 0);
}

/// A rook stands on an open file where no pawn of either side does; one pawn anywhere on the file
/// closes it. Two bishops of a side make a pair, one does not.
pub proof fn law_open_files_and_pairs(b: Seq<Cell>, c: Color, s: int, t: int)
    requires
        0 <= s < 64,
        0 <= t < 64,
    ensures
        any_pawn(b, t) && t % 8 == s % 8 ==> !rook_open(b, c, s),
        b[s] == rules::man(c, PieceType::Rook) && (forall|x: int| #[trigger] any_pawn(b, x) ==> x % 8 != s % 8) ==> rook_open(
            b,
            c,
            s,
        ),
        b[s] == rules::man(c, PieceType::Bishop) && b[t] == rules::man(c, PieceType::Bishop) && s != t ==> bishop_pair(b, c),
        (forall|x: int| 0 <= x < 64 && #[trigger] b[x] == rules::man(c, PieceType::Bishop) ==> x == s) ==> !bishop_pair(b, c),
{
    if b[s] == rules::man(c, PieceType::Bishop) && b[t] == rules::man(c, PieceType::Bishop) && s != t {
        assert(stands(b, c, PieceType::Bishop, s) && stands(b, c, PieceType::Bishop, t));
    }
    if bishop_pair(b, c) {
        let (x, y) = choose|x: int, y: int| #[trigger]
            stands(b, c, PieceType::Bishop, x) && #[trigger] stands(b, c, PieceType::Bishop, y) && x != y;
        assert(b[x] == rules::man(c, PieceType::Bishop) && b[y] == rules::man(c, PieceType::Bishop));
    }
}

/// A minor stands behind a pawn that is right in front of it as its side looks: a rank up for
/// white and a rank down for black.
pub proof fn law_a_minor_stands_behind_a_pawn(b: Seq<Cell>, s: int)
    requires
        0 <= s < 64,
    ensures
        minor_behind(b, Color::White, s) <==> s < 56 && (b[s] == rules::man(Color::White, PieceType::Knight) || b[s]
            == rules::man(Color::White, PieceType::Bishop)) && (b[s + 8] == rules::man(Color::White, PieceType::Pawn) || b[s
            + 8] == rules::man(Color::Black, PieceType::Pawn)),
        minor_behind(b, Color::Black, s) <==> s >= 8 && (b[s] == rules::man(Color::Black, PieceType::Knight) || b[s]
            == rules::man(Color::Black, PieceType::Bishop)) && (b[s - 8] == rules::man(Color::White, PieceType::Pawn) || b[s
            - 8] == rules::man(Color::Black, PieceType::Pawn)),
{
}

/// The passed pawns are sorted by the distance of the enemy king, from next to it to six and more
/// squares away: one passed pawn counts in one place.
pub proof fn law_passed_pawns_are_sorted_by_distance(bb: Bitboard, k: int, x: int, i: int)
    requires
        0 <= k < 64,
        0 <= x < 64,
        0 <= i < 6,
        forall|s: int| #[trigger] bb.has(s) <==> s == x,
    ensures
        near(bb, k, i, 64) == (if chebyshev(k, x) == i + 1 || (i == 5 && chebyshev(k, x) > 6) || (i == 0 && k == x) {
            1int
        } else {
            0
        }),
{
    let f = |s: int| bb.has(s) && history::clamped(chebyshev(k, s), 1, 6) == i + 1;
    law_distance_counts_king_moves(k, x, x);
    if f(x) {
        census::lemma_tally_one(f, x, 64);
    } else {
        census::lemma_tally_none(f, 64);
    }
}

/// Every man makes the board as uncertain as its kind does, wherever it stands and whoever's it
/// is.
pub proof fn law_every_man_makes_uncertain(b: Seq<Cell>, s: int, m: rules::Man, sp: SearchParams)
    requires
        b.len() == 64,
        geom::on_board(s),
        b[s] is None,
        m.kind != PieceType::Empty,
    ensures
        volatility(b.update(s, Some(m)), sp) - volatility(b, sp) == (match m.kind {
            PieceType::Pawn => sp.vol_pawn(),
            PieceType::Knight => sp.vol_knight(),
            PieceType::Bishop => sp.vol_bishop(),
            PieceType::Rook => sp.vol_rook(),
            PieceType::Queen => sp.vol_queen(),
            _ => sp.vol_king(),
        }),
{
    let c = b.update(s, Some(m));
    lemma_one_more(b, c, s, m, PieceType::Pawn, sp.vol_pawn() as int);
    lemma_one_more(b, c, s, m, PieceType::Knight, sp.vol_knight() as int);
    lemma_one_more(b, c, s, m, PieceType::Bishop, sp.vol_bishop() as int);
    lemma_one_more(b, c, s, m, PieceType::Rook, sp.vol_rook() as int);
    lemma_one_more(b, c, s, m, PieceType::Queen, sp.vol_queen() as int);
    lemma_one_more(b, c, s, m, PieceType::King, sp.vol_king() as int);
}

proof fn lemma_one_more(b: Seq<Cell>, c: Seq<Cell>, s: int, m: rules::Man, pt: PieceType, v: int)
    requires
        b.len() == 64,
        geom::on_board(s),
        b[s] is None,
        c == b.update(s, Some(m)),
    ensures
        m.kind == pt ==> piece_count(c, pt) * v == piece_count(b, pt) * v + v,
        m.kind != pt ==> piece_count(c, pt) * v == piece_count(b, pt) * v,
{
    let f = |x: int| rules::occupied(b, x) && b[x]->0.kind == pt;
    let g = |x: int| rules::occupied(c, x) && c[x]->0.kind == pt;
    assert forall|x: int| x != s implies (#[trigger] g(x) <==> f(x)) by {
        if geom::on_board(x) {
            assert(c[x] == b[x]);
        }
    }
    if m.kind == pt {
        census::law_a_count_counts_each_square_once(f, g, s, 64);
        assert((piece_count(b, pt) + 1) * v == piece_count(b, pt) * v + v) by (nonlinear_arith);
    } else {
        assert forall|x: int| #[trigger] g(x) <==> f(x) by {
        }
        assert(g =~= f);
    }
}

/// What White has counts for it and what Black has against: the turn, a pair of bishops, and a
/// rook on an open file.
pub proof fn law_white_counts_for_and_black_against(f: SharedFeatures, p: Position, w: Bitboard, b: Bitboard, x: int)
    requires
        f.measures(p, w, b),
        0 <= x < 64,
    ensures
        p.stm == Color::White ==> f.tempo == 1,
        p.stm == Color::Black ==> f.tempo == -1,
        bishop_pair(p.board(), Color::White) && !bishop_pair(p.board(), Color::Black) ==> f.bishop_pair_diff == 1,
        !bishop_pair(p.board(), Color::White) && bishop_pair(p.board(), Color::Black) ==> f.bishop_pair_diff == -1,
        bishop_pair(p.board(), Color::White) == bishop_pair(p.board(), Color::Black) ==> f.bishop_pair_diff == 0,
        rook_open(p.board(), Color::White, x) && (forall|s: int|
            0 <= s < 64 && s != x ==> !#[trigger] rook_open(p.board(), Color::White, s)) && (forall|s: int|
            0 <= s < 64 ==> !#[trigger] rook_open(p.board(), Color::Black, s)) ==> f.rook_open_diff == 1,
        rook_open(p.board(), Color::Black, x) && (forall|s: int|
            0 <= s < 64 && s != x ==> !#[trigger] rook_open(p.board(), Color::Black, s)) && (forall|s: int|
            0 <= s < 64 ==> !#[trigger] rook_open(p.board(), Color::White, s)) ==> f.rook_open_diff == -1,
        minor_behind(p.board(), Color::White, x) && (forall|s: int|
            0 <= s < 64 && s != x ==> !#[trigger] minor_behind(p.board(), Color::White, s)) && (forall|s: int|
            0 <= s < 64 ==> !#[trigger] minor_behind(p.board(), Color::Black, s)) ==> f.minor_behind_pawn_diff == 1,
        minor_behind(p.board(), Color::Black, x) && (forall|s: int|
            0 <= s < 64 && s != x ==> !#[trigger] minor_behind(p.board(), Color::Black, s)) && (forall|s: int|
            0 <= s < 64 ==> !#[trigger] minor_behind(p.board(), Color::White, s)) ==> f.minor_behind_pawn_diff == -1,
{
    let bd = p.board();
    lemma_none_or_one(|s: int| rook_open(bd, Color::White, s), x);
    lemma_none_or_one(|s: int| rook_open(bd, Color::Black, s), x);
    lemma_none_or_one(|s: int| minor_behind(bd, Color::White, s), x);
    lemma_none_or_one(|s: int| minor_behind(bd, Color::Black, s), x);
}

proof fn lemma_none_or_one(f: spec_fn(int) -> bool, x: int)
    requires
        0 <= x < 64,
    ensures
        (forall|s: int| 0 <= s < 64 ==> !#[trigger] f(s)) ==> census::tally(f, 64) == 0,
        f(x) && (forall|s: int| 0 <= s < 64 && s != x ==> !#[trigger] f(s)) ==> census::tally(f, 64) == 1,
{
    if forall|s: int| 0 <= s < 64 ==> !#[trigger] f(s) {
        census::lemma_tally_none(f, 64);
    }
    if f(x) && (forall|s: int| 0 <= s < 64 && s != x ==> !#[trigger] f(s)) {
        census::lemma_tally_one(f, x, 64);
    }
}

/// White's passed pawns are measured by Black's king, and Black's by White's.
pub proof fn law_passed_pawns_are_measured_by_the_enemy_king(
    f: SharedFeatures,
    p: Position,
    w: Bitboard,
    b: Bitboard,
    x: int,
    i: int,
)
    requires
        f.measures(p, w, b),
        0 <= x < 64,
        0 <= i < 6,
        0 <= position::king_of(p.board(), Color::White) < 64,
        0 <= position::king_of(p.board(), Color::Black) < 64,
    ensures
        (forall|s: int| #[trigger] w.has(s) <==> s == x) && (forall|s: int| !#[trigger] b.has(s)) && i < 5
            && position::king_of(p.board(), Color::Black) != x ==> f.enemy_king_dist[i] == (if chebyshev(
            position::king_of(p.board(), Color::Black),
            x,
        ) == i + 1 {
            1int
        } else {
            0
        }),
        (forall|s: int| #[trigger] b.has(s) <==> s == x) && (forall|s: int| !#[trigger] w.has(s)) && i < 5
            && position::king_of(p.board(), Color::White) != x ==> f.enemy_king_dist[i] == (if chebyshev(
            position::king_of(p.board(), Color::White),
            x,
        ) == i + 1 {
            -1int
        } else {
            0
        }),
{
    let wk = position::king_of(p.board(), Color::White);
    let bk = position::king_of(p.board(), Color::Black);
    if forall|s: int| !#[trigger] b.has(s) {
        census::lemma_tally_none(|s: int| b.has(s) && history::clamped(chebyshev(wk, s), 1, 6) == i + 1, 64);
    }
    if forall|s: int| !#[trigger] w.has(s) {
        census::lemma_tally_none(|s: int| w.has(s) && history::clamped(chebyshev(bk, s), 1, 6) == i + 1, 64);
    }
    if forall|s: int| #[trigger] w.has(s) <==> s == x {
        law_passed_pawns_are_sorted_by_distance(w, bk, x, i);
    }
    if forall|s: int| #[trigger] b.has(s) <==> s == x {
        law_passed_pawns_are_sorted_by_distance(b, wk, x, i);
    }
}

/// Rooks and queens that see a square next to the enemy king past a man count for their side, and
/// sight along diagonals does not.
pub proof fn law_rooks_and_queens_look_through_men_at_the_king(f: SharedFeatures, p: Position, w: Bitboard, b: Bitboard, x: int)
    requires
        f.measures(p, w, b),
        0 <= x < 64,
        geom::king_step(position::king_of(p.board(), Color::Black), x),
        forall|t: int| !#[trigger] spatial::shadowed(p.board(), p.occ, Color::Black, true, t),
    ensures
        (forall|t: int| !#[trigger] spatial::shadowed(p.board(), p.occ, Color::White, true, t)) ==> f.xray_ortho == 0,
        (forall|t: int| #[trigger] spatial::shadowed(p.board(), p.occ, Color::White, true, t) <==> t == x) ==> f.xray_ortho == 1,
{
    let white = |t: int| xray_hit(p, Color::White, t);
    let black = |t: int| xray_hit(p, Color::Black, t);
    assert(forall|t: int| !#[trigger] black(t));
    lemma_none_or_one(white, x);
    lemma_none_or_one(black, x);
    if forall|t: int| #[trigger] spatial::shadowed(p.board(), p.occ, Color::White, true, t) <==> t == x {
        assert(spatial::shadowed(p.board(), p.occ, Color::White, true, x));
        assert(white(x));
        assert forall|t: int| 0 <= t < 64 && t != x implies !#[trigger] white(t) by {
            assert(!spatial::shadowed(p.board(), p.occ, Color::White, true, t));
        }
    }
}

} // verus!
